//! CityGML/GML name handling: namespace matching, attribute lookup,
//! `xlink:href` fragments, element names, and the decisions of the streaming
//! subtree skipper, text collector and document sniffer.
//!
//! The event stream itself is read elsewhere; here every decision is a
//! function of the parsed element names, attributes and event kinds.

use vstd::prelude::*;
use vstd::utf8::{valid_utf8, decode_utf8, encode_utf8_decode_utf8};
use vstd::string::StringSliceAdditionalSpecFns;
use crate::error::{CityParquetError, Result, message_of};
use crate::text::{
    all_digit_chars, all_digits, chars_of, opt_str, ends_with, has_prefix, has_suffix, is_alpha,
    is_alpha_char, is_digit, is_digit_char, lower_seq, owned, seq_eq, slice_vec, starts_with,
    string_of,
};

verus! {

/// GML namespace prefix: matches both GML 3.1 (`.../gml`) and 3.2 (`.../gml/3.2`).
pub const NS_GML: &'static str = "http://www.opengis.net/gml";
/// CityGML 2.0 building module namespace.
pub const NS_BLDG: &'static str = "http://www.opengis.net/citygml/building/2.0";
/// CityGML 2.0 core namespace: the namespace of a supported `CityModel` root.
pub const NS_CORE: &'static str = "http://www.opengis.net/citygml/2.0";
/// The CityGML 2.0 appearance namespace.
pub const NS_APP: &'static str = "http://www.opengis.net/citygml/appearance/2.0";
/// The namespace family every CityGML core version lives under.
pub const NS_CITYGML_FAMILY: &'static str = "http://www.opengis.net/citygml/";

#[verifier::external_type_specification]
#[verifier::external_body]
pub struct ExUtf8Error(core::str::Utf8Error);

/// `std::str::from_utf8` succeeds exactly on valid UTF-8, and the string it
/// returns has exactly those bytes.
pub assume_specification[ core::str::from_utf8 ](v: &[u8]) -> (r: core::result::Result<&str, core::str::Utf8Error>)
    ensures
        r is Ok <==> valid_utf8(v@),
        r matches Ok(s) ==> s.spec_bytes() == v@,
;

/// The text of a byte string, when it is valid UTF-8.
pub open spec fn utf8_text(b: Seq<u8>) -> Option<Seq<char>> {
    if valid_utf8(b) {
        Some(decode_utf8(b))
    } else {
        None
    }
}

/// Decode a byte string as UTF-8.
pub fn utf8_string(b: &[u8]) -> (r: Option<std::string::String>)
    ensures
        match r {
            Some(s) => utf8_text(b@) == Some(s@),
            None => utf8_text(b@) is None,
        },
{
    match core::str::from_utf8(b) {
        Ok(s) => {
            proof {
                encode_utf8_decode_utf8(s@);
            }
            Some(owned(s))
        },
        Err(_) => None,
    }
}

// ---------------------------------------------------------------- names ----

/// The namespace an element name resolved to.
#[derive(Debug)]
pub enum NsResolution {
    /// Bound to this namespace URI.
    Bound(Vec<u8>),
    /// No namespace.
    Unbound,
    /// An undeclared prefix.
    Unknown(Vec<u8>),
}

/// The resolved namespace starts with `prefix`.
pub open spec fn ns_is_spec(rr: NsResolution, prefix: Seq<u8>) -> bool {
    match rr {
        NsResolution::Bound(ns) => prefix.len() <= ns@.len() && ns@.take(prefix.len() as int) == prefix,
        _ => false,
    }
}

fn bytes_start_with(s: &[u8], p: &[u8]) -> (r: bool)
    ensures
        r == (p@.len() <= s@.len() && s@.take(p@.len() as int) == p@),
{
    if p.len() > s.len() {
        return false;
    }
    let mut i: usize = 0;
    while i < p.len()
        invariant
            p.len() <= s.len(),
            i <= p.len(),
            forall|j: int| 0 <= j < i ==> s@[j] == p@[j],
        decreases p.len() - i,
    {
        if s[i] != p[i] {
            assert(s@.take(p@.len() as int)[i as int] != p@[i as int]);
            return false;
        }
        i = i + 1;
    }
    assert(s@.take(p@.len() as int) =~= p@);
    true
}

pub(crate) fn bytes_eq(a: &[u8], b: &[u8]) -> (r: bool)
    ensures
        r == (a@ == b@),
{
    if a.len() != b.len() {
        return false;
    }
    let r = bytes_start_with(a, b);
    proof {
        if r {
            assert(a@.take(b@.len() as int) =~= a@);
        } else {
            assert(a@ != b@ ==> true);
            if a@ == b@ {
                assert(a@.take(b@.len() as int) =~= b@);
            }
        }
    }
    r
}

/// True when a resolved namespace starts with `prefix`.
pub fn ns_is(rr: &NsResolution, prefix: &str) -> (r: bool)
    ensures
        r == ns_is_spec(*rr, prefix.spec_bytes()),
{
    match rr {
        NsResolution::Bound(ns) => bytes_start_with(ns.as_slice(), prefix.as_bytes()),
        _ => false,
    }
}

/// One attribute of a start tag: its raw (possibly prefixed) name and value.
#[derive(Debug)]
pub struct XmlAttr {
    pub key: Vec<u8>,
    pub value: Vec<u8>,
}

/// The value of the first attribute whose key satisfies `hit` and whose value
/// is valid UTF-8 (a key match with an undecodable value is passed over).
pub open spec fn find_attr(attrs: Seq<XmlAttr>, hit: spec_fn(Seq<u8>) -> bool) -> Option<Seq<char>>
    decreases attrs.len(),
{
    if attrs.len() == 0 {
        None
    } else if hit(attrs[0].key@) && utf8_text(attrs[0].value@) is Some {
        utf8_text(attrs[0].value@)
    } else {
        find_attr(attrs.drop_first(), hit)
    }
}

/// The part of `s` after its last `sep` (the whole of `s` when it has none).
pub open spec fn after_last<T>(s: Seq<T>, sep: T) -> Seq<T>
    decreases s.len(),
{
    if s.len() == 0 {
        s
    } else if s.last() == sep {
        Seq::empty()
    } else {
        after_last(s.drop_last(), sep).push(s.last())
    }
}

/// `s.skip(j)` is the part after the last `sep` when it holds no `sep` and is
/// preceded by one (or starts the sequence).
pub proof fn lemma_after_last<T>(s: Seq<T>, sep: T, j: int)
    requires
        0 <= j <= s.len(),
        forall|k: int| j <= k < s.len() ==> s[k] != sep,
        j == 0 || s[j - 1] == sep,
    ensures
        after_last(s, sep) == s.skip(j),
    decreases s.len(),
{
    if s.len() == 0 {
        assert(s.skip(j) =~= s);
    } else if s.last() == sep {
        assert(s.skip(j) =~= Seq::<T>::empty());
    } else {
        lemma_after_last(s.drop_last(), sep, j);
        assert(s.drop_last().skip(j).push(s.last()) =~= s.skip(j));
    }
}

fn bytes_after_last(s: &[u8], sep: u8) -> (r: Vec<u8>)
    ensures
        r@ == after_last(s@, sep),
{
    let mut j: usize = s.len();
    while j > 0 && s[j - 1] != sep
        invariant
            j <= s.len(),
            forall|k: int| j <= k < s.len() ==> s@[k] != sep,
        decreases j,
    {
        j = j - 1;
    }
    proof {
        lemma_after_last(s@, sep, j as int);
    }
    let mut r: Vec<u8> = Vec::new();
    let mut i: usize = j;
    while i < s.len()
        invariant
            j <= i <= s.len(),
            r@ == s@.subrange(j as int, i as int),
        decreases s.len() - i,
    {
        r.push(s[i]);
        i = i + 1;
        assert(r@ =~= s@.subrange(j as int, i as int));
    }
    assert(s@.subrange(j as int, s.len() as int) =~= s@.skip(j as int));
    r
}

fn chars_after_last(s: &[char], sep: char) -> (r: Vec<char>)
    ensures
        r@ == after_last(s@, sep),
{
    let mut j: usize = s.len();
    while j > 0 && s[j - 1] != sep
        invariant
            j <= s.len(),
            forall|k: int| j <= k < s.len() ==> s@[k] != sep,
        decreases j,
    {
        j = j - 1;
    }
    proof {
        lemma_after_last(s@, sep, j as int);
    }
    let r = slice_vec(s, j, s.len());
    assert(s@.subrange(j as int, s.len() as int) =~= s@.skip(j as int));
    r
}

/// Fetch an attribute value by its raw, possibly-prefixed name.
pub fn get_attr(attrs: &[XmlAttr], name: &[u8]) -> (r: Option<std::string::String>)
    ensures
        match r {
            Some(s) => find_attr(attrs@, |k: Seq<u8>| k == name@) == Some(s@),
            None => find_attr(attrs@, |k: Seq<u8>| k == name@) is None,
        },
{
    let ghost hit = |k: Seq<u8>| k == name@;
    let mut i: usize = 0;
    assert(attrs@.skip(0) =~= attrs@);
    while i < attrs.len()
        invariant
            i <= attrs.len(),
            hit == (|k: Seq<u8>| k == name@),
            find_attr(attrs@, hit) == find_attr(attrs@.skip(i as int), hit),
        decreases attrs.len() - i,
    {
        let a = &attrs[i];
        assert(attrs@.skip(i as int)[0] == attrs@[i as int]);
        assert(attrs@.skip(i as int).drop_first() =~= attrs@.skip(i + 1));
        if bytes_eq(a.key.as_slice(), name) {
            if let Some(v) = utf8_string(a.value.as_slice()) {
                return Some(v);
            }
        }
        i = i + 1;
    }
    None
}

/// A CityGML/GML `gml:id` (or a bare `id`).
pub fn gml_id(attrs: &[XmlAttr]) -> (r: Option<std::string::String>)
    ensures
        opt_str(r) == match find_attr(attrs@, |k: Seq<u8>| k == "gml:id".spec_bytes()) {
            Some(v) => Some(v),
            None => find_attr(attrs@, |k: Seq<u8>| k == "id".spec_bytes()),
        },
{
    match get_attr(attrs, "gml:id".as_bytes()) {
        Some(s) => Some(s),
        None => get_attr(attrs, "id".as_bytes()),
    }
}


/// The value of an attribute matched by its local name (prefix stripped), so
/// `xlink:href` is found whatever prefix the document binds.
pub fn get_attr_local(attrs: &[XmlAttr], local: &[u8]) -> (r: Option<std::string::String>)
    ensures
        opt_str(r) == find_attr(attrs@, |k: Seq<u8>| after_last(k, 58u8) == local@),
{
    let ghost hit = |k: Seq<u8>| after_last(k, 58u8) == local@;
    let mut i: usize = 0;
    assert(attrs@.skip(0) =~= attrs@);
    while i < attrs.len()
        invariant
            i <= attrs.len(),
            hit == (|k: Seq<u8>| after_last(k, 58u8) == local@),
            find_attr(attrs@, hit) == find_attr(attrs@.skip(i as int), hit),
        decreases attrs.len() - i,
    {
        let a = &attrs[i];
        assert(attrs@.skip(i as int)[0] == attrs@[i as int]);
        assert(attrs@.skip(i as int).drop_first() =~= attrs@.skip(i + 1));
        let key_local = bytes_after_last(a.key.as_slice(), 58u8);
        if bytes_eq(key_local.as_slice(), local) {
            if let Some(v) = utf8_string(a.value.as_slice()) {
                return Some(v);
            }
        }
        i = i + 1;
    }
    None
}

/// An intra-document reference: `#` followed by a non-empty id holding no `#`.
pub open spec fn fragment_id(href: Seq<char>) -> Option<Seq<char>> {
    if href.len() >= 2 && href[0] == '#' && (forall|k: int| 1 <= k < href.len() ==> href[k] != '#') {
        Some(href.skip(1))
    } else {
        None
    }
}

/// The `#fragment` target id of an element's `xlink:href`, if it has one.
/// An external reference (`other.gml#id`) or a non-fragment href is a
/// `Schema` error: only intra-document references can be resolved.
pub fn xlink_fragment(attrs: &[XmlAttr]) -> (r: Result<Option<std::string::String>>)
    ensures
        match find_attr(attrs@, |k: Seq<u8>| after_last(k, 58u8) == "href".spec_bytes()) {
            None => r matches Ok(None),
            Some(href) => match fragment_id(href) {
                Some(id) => r matches Ok(Some(s)) && s@ == id,
                None => r matches Err(CityParquetError::Schema(_)),
            },
        },
{
    let href = match get_attr_local(attrs, "href".as_bytes()) {
        None => return Ok(None),
        Some(h) => h,
    };
    let v = chars_of(href.as_str());
    let ghost found = find_attr(attrs@, |k: Seq<u8>| after_last(k, 58u8) == "href".spec_bytes());
    assert(found == Some(v@));
    if v.len() >= 2 && v[0] == '#' {
        let mut k: usize = 1;
        while k < v.len()
            invariant
                1 <= k <= v.len(),
                found == Some(v@),
                found == find_attr(attrs@, |k: Seq<u8>| after_last(k, 58u8) == "href".spec_bytes()),
                forall|j: int| 1 <= j < k ==> v@[j] != '#',
            decreases v.len() - k,
        {
            if v[k] == '#' {
                return Err(href_err(href.as_str()));
            }
            k = k + 1;
        }
        let id = slice_vec(v.as_slice(), 1, v.len());
        assert(v@.subrange(1, v.len() as int) =~= v@.skip(1));
        Ok(Some(string_of(id.as_slice())))
    } else {
        Err(href_err(href.as_str()))
    }
}

fn href_err(href: &str) -> (e: CityParquetError)
    ensures
        e is Schema,
        message_of(e) == "CityGML xlink:href "@ + href@
            + " is not an intra-document #fragment reference (external/shared geometry is out of scope)"@,
{
    let mut m = owned("CityGML xlink:href ");
    m.push_str(href);
    m.push_str(" is not an intra-document #fragment reference (external/shared geometry is out of scope)");
    CityParquetError::Schema(m)
}

/// A character allowed after the first in an id: letter, digit, `.`, `-`, `_`.
pub open spec fn is_ncname_rest(c: char) -> bool {
    is_alpha(c) || is_digit(c) || c == '.' || c == '-' || c == '_'
}

/// A valid XML NCName in the pragmatic ASCII form real CityGML ids use: a
/// letter or `_` first, then letters, digits, `.`, `-`, `_`; never a `:`.
pub open spec fn is_ncname_spec(id: Seq<char>) -> bool {
    id.len() >= 1 && (is_alpha(id[0]) || id[0] == '_')
        && forall|k: int| 1 <= k < id.len() ==> is_ncname_rest(#[trigger] id[k])
}

pub fn is_ncname(id: &str) -> (r: bool)
    ensures
        r == is_ncname_spec(id@),
{
    let v = chars_of(id);
    if v.len() == 0 {
        return false;
    }
    let c0 = v[0];
    if !(is_alpha_char(c0) || c0 == '_') {
        return false;
    }
    let mut k: usize = 1;
    while k < v.len()
        invariant
            1 <= k <= v.len(),
            v@ == id@,
            forall|j: int| 1 <= j < k ==> is_ncname_rest(#[trigger] v@[j]),
        decreases v.len() - k,
    {
        let c = v[k];
        if !(is_alpha_char(c) || is_digit_char(c) || c == '.' || c == '-' || c == '_') {
            return false;
        }
        k = k + 1;
    }
    true
}

/// `bldg:lodN<suffix>` -> the LoD string `N` (one or more digits).
pub open spec fn lod_suffix_spec(local: Seq<u8>, suffix: Seq<u8>) -> Option<Seq<char>> {
    match (utf8_text(local), utf8_text(suffix)) {
        (Some(s), Some(suf)) => if has_prefix(s, "lod"@) && has_suffix(s.skip(3), suf) {
            let digits = s.subrange(3, s.len() - suf.len());
            if digits.len() > 0 && all_digits(digits) {
                Some(digits)
            } else {
                None
            }
        } else {
            None
        },
        _ => None,
    }
}

pub fn lod_suffix(local: &[u8], suffix: &[u8]) -> (r: Option<std::string::String>)
    ensures
        opt_str(r) == lod_suffix_spec(local@, suffix@),
{
    let s = match utf8_string(local) {
        Some(s) => chars_of(s.as_str()),
        None => return None,
    };
    let suf = match utf8_string(suffix) {
        Some(t) => chars_of(t.as_str()),
        None => return None,
    };
    let lod = chars_of("lod");
    proof {
        reveal_strlit("lod");
    }
    assert(lod@.len() == 3);
    if !starts_with(s.as_slice(), lod.as_slice()) {
        return None;
    }
    let rest = slice_vec(s.as_slice(), 3, s.len());
    assert(rest@ =~= s@.skip(3));
    if !ends_with(rest.as_slice(), suf.as_slice()) {
        return None;
    }
    assert(suf@.len() <= rest@.len());
    let digits = slice_vec(s.as_slice(), 3, s.len() - suf.len());
    if digits.len() > 0 && all_digit_chars(digits.as_slice()) {
        Some(string_of(digits.as_slice()))
    } else {
        None
    }
}

/// CityGML `app:mimeType` -> CityJSON texture `type` (only PNG and JPG survive).
pub open spec fn mime_type_spec(mime: Seq<char>) -> Option<Seq<char>> {
    let m = lower_seq(mime);
    if m == "image/png"@ {
        Some("PNG"@)
    } else if m == "image/jpeg"@ || m == "image/jpg"@ {
        Some("JPG"@)
    } else {
        None
    }
}

fn lower_vec(v: &[char]) -> (r: Vec<char>)
    ensures
        r@ == lower_seq(v@),
{
    let mut r: Vec<char> = Vec::new();
    let mut i: usize = 0;
    while i < v.len()
        invariant
            i <= v.len(),
            r@ == lower_seq(v@.take(i as int)),
        decreases v.len() - i,
    {
        r.push(crate::text::lower_char(v[i]));
        i = i + 1;
        assert(r@ =~= lower_seq(v@.take(i as int)));
    }
    assert(v@.take(v.len() as int) =~= v@);
    r
}

pub fn mime_to_type(mime: &str) -> (r: Option<&'static str>)
    ensures
        match r {
            Some(t) => mime_type_spec(mime@) == Some(t@),
            None => mime_type_spec(mime@) is None,
        },
{
    let m = lower_vec(chars_of(mime).as_slice());
    if seq_eq(m.as_slice(), chars_of("image/png").as_slice()) {
        Some("PNG")
    } else if seq_eq(m.as_slice(), chars_of("image/jpeg").as_slice())
        || seq_eq(m.as_slice(), chars_of("image/jpg").as_slice()) {
        Some("JPG")
    } else {
        None
    }
}

// ---------------------------------------------------------------- sniff ----

/// Which CityGML version a document declares on its `CityModel` root.
#[derive(Debug, PartialEq, Eq)]
pub enum CityGmlVersion {
    /// CityGML 2.0, the only version read.
    V2_0,
    /// Any other CityGML version, as it appears in the namespace (e.g. `1.0`).
    Other(std::string::String),
}

/// The trailing segment of a CityGML core namespace (`.../citygml/1.0` ->
/// `1.0`), or `unknown`.
pub open spec fn version_from_ns_spec(rr: NsResolution) -> Seq<char> {
    match rr {
        NsResolution::Bound(ns) => match utf8_text(ns@) {
            Some(t) => if after_last(t, '/').len() > 0 {
                after_last(t, '/')
            } else {
                "unknown"@
            },
            None => "unknown"@,
        },
        _ => "unknown"@,
    }
}

pub fn version_from_ns(rr: &NsResolution) -> (r: std::string::String)
    ensures
        r@ == version_from_ns_spec(*rr),
{
    match rr {
        NsResolution::Bound(ns) => match utf8_string(ns.as_slice()) {
            Some(t) => {
                let seg = chars_after_last(chars_of(t.as_str()).as_slice(), '/');
                if seg.len() > 0 {
                    string_of(seg.as_slice())
                } else {
                    owned("unknown")
                }
            },
            None => owned("unknown"),
        },
        _ => owned("unknown"),
    }
}

/// The verdict on a document's root element.
pub open spec fn classify_root_spec(local: Seq<u8>, rr: NsResolution) -> Option<Option<Seq<char>>> {
    if local != "CityModel".spec_bytes() {
        None
    } else if ns_is_spec(rr, NS_CORE.spec_bytes()) {
        Some(None)
    } else if ns_is_spec(rr, NS_CITYGML_FAMILY.spec_bytes()) {
        Some(Some(version_from_ns_spec(rr)))
    } else {
        None
    }
}

/// Classify a document by its root `Start` element: a `CityModel` in the
/// CityGML 2.0 core namespace is version 2.0; one in any other CityGML
/// namespace is that other version; anything else is not CityGML.
pub fn classify_root(local: &[u8], rr: &NsResolution) -> (r: Option<CityGmlVersion>)
    ensures
        match classify_root_spec(local@, *rr) {
            None => r is None,
            Some(None) => r matches Some(CityGmlVersion::V2_0),
            Some(Some(v)) => r matches Some(CityGmlVersion::Other(s)) && s@ == v,
        },
{
    if !bytes_eq(local, "CityModel".as_bytes()) {
        return None;
    }
    if ns_is(rr, NS_CORE) {
        return Some(CityGmlVersion::V2_0);
    }
    if ns_is(rr, NS_CITYGML_FAMILY) {
        return Some(CityGmlVersion::Other(version_from_ns(rr)));
    }
    None
}

/// How many XML events the sniffer reads, at most, looking for the root.
pub const SNIFF_EVENT_LIMIT: usize = 64;

/// One event of a document being sniffed, as far as the sniffer needs it.
pub enum SniffEvent {
    /// A start tag: its local name and resolved namespace.
    Start { local: Vec<u8>, ns: NsResolution },
    /// The end of the document.
    Eof,
    /// The document could not be read or is not XML.
    Error,
    /// Anything else (declaration, comment, text, ...).
    Other,
}

/// What the sniffer does after an event.
pub enum SniffStep {
    /// Read the next event.
    Continue,
    /// Stop with this verdict (`None`: not CityGML).
    Done(Option<CityGmlVersion>),
}

/// The verdict of a sniff on an event: decided, and how (see
/// [`classify_root_spec`] for a start tag); `None` to keep reading.
pub open spec fn sniff_step_spec(read: nat, ev: SniffEvent) -> Option<Option<Option<Seq<char>>>> {
    match ev {
        SniffEvent::Start { local, ns } => Some(classify_root_spec(local@, ns)),
        SniffEvent::Eof => Some(None),
        SniffEvent::Error => Some(None),
        SniffEvent::Other => if read + 1 < SNIFF_EVENT_LIMIT { None } else { Some(None) },
    }
}

/// One step of sniffing a document for CityGML, given how many events were
/// read before `ev`: the first start tag decides (see [`classify_root`]);
/// the end of the document, a read error, or the last allowed event without
/// a start tag means not CityGML; anything else reads on.
pub fn sniff_step(read: usize, ev: &SniffEvent) -> (r: SniffStep)
    requires
        read < SNIFF_EVENT_LIMIT,
    ensures
        match sniff_step_spec(read as nat, *ev) {
            None => r is Continue,
            Some(None) => r matches SniffStep::Done(None),
            Some(Some(None)) => r matches SniffStep::Done(Some(CityGmlVersion::V2_0)),
            Some(Some(Some(v))) => r matches SniffStep::Done(Some(CityGmlVersion::Other(s))) && s@ == v,
        },
{
    match ev {
        SniffEvent::Start { local, ns } => SniffStep::Done(classify_root(local.as_slice(), ns)),
        SniffEvent::Eof => SniffStep::Done(None),
        SniffEvent::Error => SniffStep::Done(None),
        SniffEvent::Other => {
            if read + 1 < SNIFF_EVENT_LIMIT {
                SniffStep::Continue
            } else {
                SniffStep::Done(None)
            }
        },
    }
}

/// True when the sniffed version is CityGML 2.0.
pub fn is_citygml(sniffed: &Option<CityGmlVersion>) -> (r: bool)
    ensures
        r == (*sniffed matches Some(CityGmlVersion::V2_0)),
{
    match sniffed {
        Some(CityGmlVersion::V2_0) => true,
        _ => false,
    }
}

} // verus!
