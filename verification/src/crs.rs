//! `srsName` resolution for CityGML input and the package-CRS -> `srsName`
//! mapping for CityGML output.
//!
//! The pipeline never reprojects: a CRS is provenance only. An `srsName` is
//! resolved to an EPSG code only for the syntaxes understood here (the EPSG
//! short, URN and URL forms, plus the German AdV compound URNs matched
//! exactly); anything else advertises no CRS. A name that resolves to a known
//! geographic (degree) CRS is rejected, because coordinates are quantised at
//! 1 mm, which would destroy degrees.

use vstd::prelude::*;
use crate::error::{CityParquetError, Result, message_of};
use crate::json::{JsonNumber, JsonValue, JsonView, NumView, get_spec, num_view};
use crate::text::{
    all_digit_chars, all_digits, is_digit, chars_of, contains_ci, contains_ignore_case, decimal,
    decimal_string, eq_ignore_case, has_prefix, owned, seq_eq, seq_eq_ignore_case, slice_vec,
    starts_with, string_of, trim, trim_chars,
};

verus! {

/// Outcome of resolving a CityGML `srsName`.
#[derive(Debug, PartialEq, Eq)]
pub enum CrsResolution {
    /// Resolved to a projected/compound EPSG code advertised as the CRS.
    Epsg(std::string::String),
    /// A name that is not advertised as a CRS.
    Unresolved,
}

// ---------------------------------------------------------------- tokens ----

/// `:` and `/` separate the tokens of an EPSG name.
pub open spec fn is_sep(c: char) -> bool {
    c == ':' || c == '/'
}

/// The token being built, when it is non-empty, as a one-element list.
pub open spec fn flush(cur: Seq<char>) -> Seq<Seq<char>> {
    if cur.len() > 0 {
        seq![cur]
    } else {
        Seq::empty()
    }
}

/// The non-empty runs of non-separator characters of `s`, given the run
/// `cur` already started before it.
pub open spec fn tokens_from(s: Seq<char>, cur: Seq<char>) -> Seq<Seq<char>>
    decreases s.len(),
{
    if s.len() == 0 {
        flush(cur)
    } else if is_sep(s[0]) {
        flush(cur) + tokens_from(s.drop_first(), Seq::empty())
    } else {
        tokens_from(s.drop_first(), cur.push(s[0]))
    }
}

/// `name.split([':', '/']).filter(|t| !t.is_empty())`.
pub open spec fn tokens(s: Seq<char>) -> Seq<Seq<char>> {
    tokens_from(s, Seq::empty())
}

/// A token that can be an EPSG code: at least four characters, all digits.
pub open spec fn is_code_token(t: Seq<char>) -> bool {
    t.len() >= 4 && all_digits(t)
}

/// The last code-like token of `ts`.
pub open spec fn last_code_token(ts: Seq<Seq<char>>) -> Option<Seq<char>>
    decreases ts.len(),
{
    if ts.len() == 0 {
        None
    } else if is_code_token(ts.last()) {
        Some(ts.last())
    } else {
        last_code_token(ts.drop_last())
    }
}

/// Some token is the `EPSG` authority, ignoring ASCII case.
pub open spec fn has_epsg_token(ts: Seq<Seq<char>>) -> bool {
    exists|i: int| 0 <= i < ts.len() && eq_ignore_case(#[trigger] ts[i], "EPSG"@)
}

/// The EPSG code of a German AdV URN suffix (after `urn:adv:crs:`), matched exactly.
pub open spec fn adv_code(rest: Seq<char>) -> Option<Seq<char>> {
    if rest == "ETRS89_UTM32*DE_DHHN92_NH"@ {
        Some("5555"@)
    } else if rest == "ETRS89_UTM33*DE_DHHN92_NH"@ {
        Some("5556"@)
    } else if rest == "ETRS89_UTM32"@ {
        Some("25832"@)
    } else if rest == "ETRS89_UTM33"@ {
        Some("25833"@)
    } else {
        None
    }
}

/// The bare EPSG code an `srsName` denotes, or `None` when it is not understood.
pub open spec fn epsg_code_spec(name: Seq<char>) -> Option<Seq<char>> {
    if has_prefix(name, "urn:adv:crs:"@) {
        adv_code(name.skip("urn:adv:crs:"@.len() as int))
    } else if !has_epsg_token(tokens(name)) {
        None
    } else {
        last_code_token(tokens(name))
    }
}

/// The known geographic (degree-based) EPSG codes this library refuses: the
/// common lon/lat systems, listed, not derived.
pub open spec fn is_geographic_epsg(code: Seq<char>) -> bool {
    code == "4326"@ || code == "4979"@ || code == "4258"@ || code == "4937"@
        || code == "4269"@ || code == "4267"@ || code == "4283"@ || code == "7844"@
        || code == "4289"@ || code == "4230"@ || code == "4171"@ || code == "4612"@
        || code == "6668"@ || code == "4490"@ || code == "4019"@ || code == "4322"@
}

/// `resolve` refuses this raw `srsName`: after trimming it names `CRS84`, or
/// it resolves to a known geographic EPSG code.
pub open spec fn resolve_refuses(srs_name: Seq<char>) -> bool {
    let name = trim(srs_name);
    contains_ci(name, "CRS84"@) || match epsg_code_spec(name) {
        Some(code) => is_geographic_epsg(code),
        None => false,
    }
}

// ------------------------------------------------------------- execution ----

fn tokens_exec(s: &[char]) -> (r: Vec<Vec<char>>)
    ensures
        r@.len() == tokens(s@).len(),
        forall|i: int| 0 <= i < r@.len() ==> #[trigger] r@[i]@ == tokens(s@)[i],
{
    let mut done: Vec<Vec<char>> = Vec::new();
    let ghost mut done_v: Seq<Seq<char>> = Seq::empty();
    let mut cur: Vec<char> = Vec::new();
    let mut i: usize = 0;
    assert(s@.skip(0) =~= s@);
    while i < s.len()
        invariant
            i <= s.len(),
            done@.len() == done_v.len(),
            forall|k: int| 0 <= k < done@.len() ==> #[trigger] done@[k]@ == done_v[k],
            tokens(s@) == done_v + tokens_from(s@.skip(i as int), cur@),
        decreases s.len() - i,
    {
        let c = s[i];
        let ghost rest = s@.skip(i as int);
        assert(rest[0] == c);
        assert(rest.drop_first() =~= s@.skip(i + 1));
        if c == ':' || c == '/' {
            if cur.len() > 0 {
                proof {
                    done_v = done_v.push(cur@);
                }
                done.push(cur);
                cur = Vec::new();
            }
            assert(cur@ =~= Seq::<char>::empty());
        } else {
            cur.push(c);
        }
        i = i + 1;
    }
    if cur.len() > 0 {
        proof {
            done_v = done_v.push(cur@);
        }
        done.push(cur);
    }
    assert(s@.skip(s.len() as int) =~= Seq::<char>::empty());
    assert(done_v =~= tokens(s@));
    done
}


/// Whether some token is `EPSG`, ignoring ASCII case.
fn any_epsg_token(ts: &Vec<Vec<char>>, ghost_ts: Ghost<Seq<Seq<char>>>) -> (r: bool)
    requires
        ts@.len() == ghost_ts@.len(),
        forall|i: int| 0 <= i < ts@.len() ==> #[trigger] ts@[i]@ == ghost_ts@[i],
    ensures
        r == has_epsg_token(ghost_ts@),
{
    let epsg = chars_of("EPSG");
    let mut i: usize = 0;
    while i < ts.len()
        invariant
            i <= ts.len(),
            epsg@ == "EPSG"@,
            ts@.len() == ghost_ts@.len(),
            forall|k: int| 0 <= k < ts@.len() ==> #[trigger] ts@[k]@ == ghost_ts@[k],
            forall|k: int| 0 <= k < i ==> !eq_ignore_case(#[trigger] ghost_ts@[k], "EPSG"@),
        decreases ts.len() - i,
    {
        if seq_eq_ignore_case(ts[i].as_slice(), epsg.as_slice()) {
            assert(eq_ignore_case(ghost_ts@[i as int], "EPSG"@));
            return true;
        }
        i = i + 1;
    }
    false
}

/// The last code-like token, searching from the end.
fn last_code(ts: &Vec<Vec<char>>, ghost_ts: Ghost<Seq<Seq<char>>>) -> (r: Option<std::string::String>)
    requires
        ts@.len() == ghost_ts@.len(),
        forall|i: int| 0 <= i < ts@.len() ==> #[trigger] ts@[i]@ == ghost_ts@[i],
    ensures
        match r {
            Some(c) => last_code_token(ghost_ts@) == Some(c@),
            None => last_code_token(ghost_ts@) is None,
        },
{
    let mut n: usize = ts.len();
    assert(ghost_ts@.take(n as int) =~= ghost_ts@);
    while n > 0
        invariant
            n <= ts.len(),
            ts@.len() == ghost_ts@.len(),
            forall|k: int| 0 <= k < ts@.len() ==> #[trigger] ts@[k]@ == ghost_ts@[k],
            last_code_token(ghost_ts@) == last_code_token(ghost_ts@.take(n as int)),
        decreases n,
    {
        let t = &ts[n - 1];
        let ghost pre = ghost_ts@.take(n as int);
        assert(pre.last() == ghost_ts@[n - 1]);
        assert(pre.drop_last() =~= ghost_ts@.take(n - 1));
        if t.len() >= 4 && all_digit_chars(t.as_slice()) {
            return Some(string_of(t.as_slice()));
        }
        n = n - 1;
    }
    None
}

/// The EPSG code of an AdV URN suffix.
fn adv_code_exec(rest: &[char]) -> (r: Option<std::string::String>)
    ensures
        match r {
            Some(c) => adv_code(rest@) == Some(c@),
            None => adv_code(rest@) is None,
        },
{
    let a = chars_of("ETRS89_UTM32*DE_DHHN92_NH");
    let b = chars_of("ETRS89_UTM33*DE_DHHN92_NH");
    let c = chars_of("ETRS89_UTM32");
    let d = chars_of("ETRS89_UTM33");
    if seq_eq(rest, a.as_slice()) {
        Some(owned("5555"))
    } else if seq_eq(rest, b.as_slice()) {
        Some(owned("5556"))
    } else if seq_eq(rest, c.as_slice()) {
        Some(owned("25832"))
    } else if seq_eq(rest, d.as_slice()) {
        Some(owned("25833"))
    } else {
        None
    }
}

/// Map an `srsName` to a bare EPSG code, or `None` when it is not understood.
pub fn epsg_code(name: &[char]) -> (r: Option<std::string::String>)
    ensures
        match r {
            Some(c) => epsg_code_spec(name@) == Some(c@),
            None => epsg_code_spec(name@) is None,
        },
{
    let adv = chars_of("urn:adv:crs:");
    if starts_with(name, adv.as_slice()) {
        let rest = slice_vec(name, adv.len(), name.len());
        return adv_code_exec(rest.as_slice());
    }
    let ts = tokens_exec(name);
    let ghost g = tokens(name@);
    if !any_epsg_token(&ts, Ghost(g)) {
        return None;
    }
    last_code(&ts, Ghost(g))
}

/// Whether a bare EPSG code is one of the known geographic (degree) CRSs.
pub fn is_geographic_code(code: &str) -> (r: bool)
    ensures
        r == is_geographic_epsg(code@),
{
    let c = chars_of(code);
    seq_eq(c.as_slice(), chars_of("4326").as_slice()) || seq_eq(c.as_slice(), chars_of("4979").as_slice())
        || seq_eq(c.as_slice(), chars_of("4258").as_slice()) || seq_eq(c.as_slice(), chars_of("4937").as_slice())
        || seq_eq(c.as_slice(), chars_of("4269").as_slice()) || seq_eq(c.as_slice(), chars_of("4267").as_slice())
        || seq_eq(c.as_slice(), chars_of("4283").as_slice()) || seq_eq(c.as_slice(), chars_of("7844").as_slice())
        || seq_eq(c.as_slice(), chars_of("4289").as_slice()) || seq_eq(c.as_slice(), chars_of("4230").as_slice())
        || seq_eq(c.as_slice(), chars_of("4171").as_slice()) || seq_eq(c.as_slice(), chars_of("4612").as_slice())
        || seq_eq(c.as_slice(), chars_of("6668").as_slice()) || seq_eq(c.as_slice(), chars_of("4490").as_slice())
        || seq_eq(c.as_slice(), chars_of("4019").as_slice()) || seq_eq(c.as_slice(), chars_of("4322").as_slice())
}

/// The error for a name that resolves to a geographic CRS.
fn geographic_err(srs_name: &str, code: &str) -> (e: CityParquetError)
    ensures
        e is Schema,
        message_of(e) == "CityGML srsName "@ + srs_name@ + " resolves to geographic CRS "@ + code@
            + "; only projected (metre-based) CRSs are supported (coordinates are quantised at 1 mm)"@,
{
    let mut m = owned("CityGML srsName ");
    m.push_str(srs_name);
    m.push_str(" resolves to geographic CRS ");
    m.push_str(code);
    m.push_str("; only projected (metre-based) CRSs are supported (coordinates are quantised at 1 mm)");
    CityParquetError::Schema(m)
}

/// Resolve a raw `srsName`. It is refused (a `Schema` error) exactly when it
/// names `CRS84` or resolves to a known geographic EPSG code; otherwise it is
/// the EPSG code it denotes, or `Unresolved` when no code is understood.
pub fn resolve(srs_name: &str) -> (r: Result<CrsResolution>)
    ensures
        match r {
            Err(e) => resolve_refuses(srs_name@) && e is Schema,
            Ok(CrsResolution::Unresolved) => !resolve_refuses(srs_name@)
                && epsg_code_spec(trim(srs_name@)) is None,
            Ok(CrsResolution::Epsg(c)) => !resolve_refuses(srs_name@)
                && epsg_code_spec(trim(srs_name@)) == Some(c@),
        },
{
    let raw = chars_of(srs_name);
    let name = trim_chars(raw.as_slice());
    let crs84 = chars_of("CRS84");
    if contains_ignore_case(name.as_slice(), crs84.as_slice()) {
        return Err(geographic_err(srs_name, "CRS84"));
    }
    match epsg_code(name.as_slice()) {
        None => Ok(CrsResolution::Unresolved),
        Some(code) => {
            if is_geographic_code(code.as_str()) {
                Err(geographic_err(srs_name, code.as_str()))
            } else {
                Ok(CrsResolution::Epsg(code))
            }
        },
    }
}


// --------------------------------------------------- package CRS -> srsName ----

/// `Number::to_string`: the decimal text of a JSON number.
pub open spec fn number_text(n: NumView) -> Seq<char> {
    match n {
        NumView::PosInt(u) => decimal(u as nat),
        NumView::NegInt(i) => if i < 0 {
            "-"@ + decimal((-i) as nat)
        } else {
            decimal(i as nat)
        },
        NumView::Float(t) => t,
    }
}

pub fn number_to_string(n: &JsonNumber) -> (s: std::string::String)
    ensures
        s@ == number_text(num_view(*n)),
{
    match n {
        JsonNumber::PosInt(u) => decimal_string(*u),
        JsonNumber::NegInt(i) => {
            if *i >= 0 {
                return decimal_string(*i as u64);
            }
            let mut s = owned("-");
            let mag: u64 = ((-(*i + 1)) as u64) + 1;
            let d = decimal_string(mag);
            s.push_str(d.as_str());
            s
        },
        JsonNumber::Float(t) => owned(t.as_str()),
    }
}

/// The bare EPSG code held by the package CRS metadata: an OGC EPSG URL string
/// (parsed like an `srsName`), or a PROJJSON object whose `id.authority` is
/// `EPSG` (any ASCII case) and whose `id.code` is a number or a non-empty
/// all-digit string.
pub open spec fn extract_epsg_code_spec(crs: JsonView) -> Option<Seq<char>> {
    match crs {
        JsonView::Str(s) => epsg_code_spec(s),
        _ => match get_spec(crs, "id"@) {
            None => None,
            Some(id) => match get_spec(id, "authority"@) {
                Some(JsonView::Str(a)) => if !eq_ignore_case(a, "EPSG"@) {
                    None
                } else {
                    match get_spec(id, "code"@) {
                        Some(JsonView::Number(n)) => Some(number_text(n)),
                        Some(JsonView::Str(c)) => if c.len() > 0 && all_digits(c) {
                            Some(c)
                        } else {
                            None
                        },
                        _ => None,
                    }
                },
                _ => None,
            },
        },
    }
}

fn extract_epsg_code(crs: &JsonValue) -> (r: Option<std::string::String>)
    ensures
        match r {
            Some(c) => extract_epsg_code_spec(crs@) == Some(c@),
            None => extract_epsg_code_spec(crs@) is None,
        },
{
    if let JsonValue::String(s) = crs {
        let v = chars_of(s.as_str());
        return epsg_code(v.as_slice());
    }
    let id = match crs.get("id") {
        Some(id) => id,
        None => return None,
    };
    let authority = match id.get("authority") {
        Some(JsonValue::String(a)) => a,
        _ => return None,
    };
    if !seq_eq_ignore_case(chars_of(authority.as_str()).as_slice(), chars_of("EPSG").as_slice()) {
        return None;
    }
    match id.get("code") {
        Some(JsonValue::Number(n)) => Some(number_to_string(n)),
        Some(JsonValue::String(c)) => {
            let cv = chars_of(c.as_str());
            if cv.len() > 0 && all_digit_chars(cv.as_slice()) {
                Some(owned(c.as_str()))
            } else {
                None
            }
        },
        _ => None,
    }
}

/// The `srsName` the writer emits for an EPSG code.
pub open spec fn srs_urn(code: Seq<char>) -> Seq<char> {
    "urn:ogc:def:crs:EPSG::"@ + code
}

/// The package CRS yields this `srsName`: its EPSG code, written as a URN that
/// the reader's own resolver accepts and maps back to the same code.
pub open spec fn srs_name_accepted(code: Seq<char>) -> bool {
    !resolve_refuses(srs_urn(code)) && epsg_code_spec(trim(srs_urn(code))) == Some(code)
}

/// Map the package CRS metadata to a validated writer `srsName`.
///
/// No CRS gives `Ok(None)`. Otherwise the EPSG code is extracted, written as
/// `urn:ogc:def:crs:EPSG::<code>`, and accepted only when the reader's own
/// resolver maps that URN back to the same projected code; anything else (no
/// recognisable EPSG code, a geographic code, a code that does not round-trip)
/// is a `Schema` error.
pub fn srs_name_for(crs: Option<&JsonValue>) -> (r: Result<Option<std::string::String>>)
    ensures
        match crs {
            None => r matches Ok(None),
            Some(v) => match extract_epsg_code_spec(v@) {
                None => r matches Err(CityParquetError::Schema(_)),
                Some(code) => if srs_name_accepted(code) {
                    r matches Ok(Some(s)) && s@ == srs_urn(code)
                } else {
                    r matches Err(CityParquetError::Schema(_))
                },
            },
        },
        // The emitted srsName always resolves, through the reader, to a
        // projected EPSG code.
        r matches Ok(Some(s)) ==> !resolve_refuses(s@) && epsg_code_spec(trim(s@)) is Some,
{
    let crs = match crs {
        None => return Ok(None),
        Some(c) => c,
    };
    let code = match extract_epsg_code(crs) {
        Some(c) => c,
        None => {
            return Err(CityParquetError::Schema(owned(
                "package CRS is not a recognised EPSG identifier (expected an OGC EPSG URL or a PROJJSON object with an EPSG authority)",
            )));
        },
    };
    let mut urn = owned("urn:ogc:def:crs:EPSG::");
    urn.push_str(code.as_str());
    match resolve(urn.as_str()) {
        Ok(CrsResolution::Epsg(resolved)) => {
            if seq_eq(chars_of(resolved.as_str()).as_slice(), chars_of(code.as_str()).as_slice()) {
                Ok(Some(urn))
            } else {
                Err(round_trip_err(code.as_str()))
            }
        },
        _ => Err(round_trip_err(code.as_str())),
    }
}

fn round_trip_err(code: &str) -> (e: CityParquetError)
    ensures
        e is Schema,
        message_of(e) == "package CRS EPSG:"@ + code@ + " did not round-trip through the reader's srsName resolver"@,
{
    let mut m = owned("package CRS EPSG:");
    m.push_str(code);
    m.push_str(" did not round-trip through the reader's srsName resolver");
    CityParquetError::Schema(m)
}

// -------------------------------------------------------- reference system ----

/// The OGC definitions server that CRS URLs are rooted at.
pub open spec fn default_crs_base_url() -> Seq<char> {
    "https://www.opengis.net/def/crs"@
}

/// A CityJSON `referenceSystem`: an OGC CRS URL split into its parts.
#[derive(Debug)]
pub struct ReferenceSystem {
    pub base_url: std::string::String,
    pub authority: std::string::String,
    pub version: std::string::String,
    pub code: std::string::String,
}

/// `{base_url}/{authority}/{version}/{code}`.
pub open spec fn url_of(base: Seq<char>, authority: Seq<char>, version: Seq<char>, code: Seq<char>) -> Seq<char> {
    base + "/"@ + authority + "/"@ + version + "/"@ + code
}

impl ReferenceSystem {
    /// A reference system; the base URL defaults to the OGC definitions server.
    pub fn new(
        base_url: Option<std::string::String>,
        authority: std::string::String,
        version: std::string::String,
        code: std::string::String,
    ) -> (r: ReferenceSystem)
        ensures
            r.base_url@ == match base_url {
                Some(b) => b@,
                None => default_crs_base_url(),
            },
            r.authority == authority,
            r.version == version,
            r.code == code,
    {
        let base_url = match base_url {
            Some(b) => b,
            None => owned("https://www.opengis.net/def/crs"),
        };
        ReferenceSystem { base_url, authority, version, code }
    }

    /// The OGC CRS URL.
    pub fn to_url(&self) -> (u: std::string::String)
        ensures
            u@ == url_of(self.base_url@, self.authority@, self.version@, self.code@),
    {
        let mut u = owned(self.base_url.as_str());
        u.push_str("/");
        u.push_str(self.authority.as_str());
        u.push_str("/");
        u.push_str(self.version.as_str());
        u.push_str("/");
        u.push_str(self.code.as_str());
        u
    }
}

/// The CityJSON `referenceSystem` (OGC EPSG URL, version `0`) for a resolved code.
pub fn reference_system(code: &str) -> (r: ReferenceSystem)
    ensures
        r.base_url@ == default_crs_base_url(),
        r.authority@ == "EPSG"@,
        r.version@ == "0"@,
        r.code@ == code@,
        r.to_url_spec() == url_of(default_crs_base_url(), "EPSG"@, "0"@, code@),
{
    ReferenceSystem::new(None, owned("EPSG"), owned("0"), owned(code))
}

impl ReferenceSystem {
    /// The URL [`ReferenceSystem::to_url`] returns.
    pub open spec fn to_url_spec(&self) -> Seq<char> {
        url_of(self.base_url@, self.authority@, self.version@, self.code@)
    }
}

// ------------------------------------------------------------ URL parsing ----

/// `pat` occurs in `s` at position `i`.
pub open spec fn occurs_at(s: Seq<char>, pat: Seq<char>, i: int) -> bool {
    0 <= i && i + pat.len() <= s.len() && s.subrange(i, i + pat.len()) == pat
}

/// The first position at or after `k` where `pat` occurs in `s`.
pub open spec fn first_from(s: Seq<char>, pat: Seq<char>, k: nat) -> Option<nat>
    decreases s.len() + 1 - k,
{
    if k + pat.len() > s.len() {
        None
    } else if occurs_at(s, pat, k as int) {
        Some(k)
    } else {
        first_from(s, pat, k + 1)
    }
}

/// `s` cut at every `sep` (one more piece than there are separators).
pub open spec fn split_on(s: Seq<char>, sep: char) -> Seq<Seq<char>>
    decreases s.len(),
{
    if s.len() == 0 {
        seq![Seq::empty()]
    } else {
        let pre = split_on(s.drop_last(), sep);
        if s.last() == sep {
            pre.push(Seq::empty())
        } else {
            pre.update(pre.len() - 1, pre.last().push(s.last()))
        }
    }
}

/// The OGC CRS URL marker a reference-system URL must contain.
pub open spec fn ogc_marker() -> Seq<char> {
    "//www.opengis.net/def/crs"@
}

/// A URL on which the split below is defined: when it holds the marker, its
/// first `crs` is followed by one more ASCII character.
pub open spec fn from_url_defined(url: Seq<char>) -> bool {
    first_from(url, ogc_marker(), 0) is Some ==> ({
        let i = first_from(url, "crs"@, 0)->Some_0 as int;
        i + 3 < url.len() && (url[i + 3] as u32) < 128
    })
}

/// A reference-system URL split into base URL, authority, version and code:
/// it must hold the OGC marker; the base is everything through its first
/// `crs`, and what follows the character after that `crs` must be exactly
/// three `/`-separated parts.
pub open spec fn from_url_spec(url: Seq<char>) -> Option<(Seq<char>, Seq<char>, Seq<char>, Seq<char>)> {
    match first_from(url, ogc_marker(), 0) {
        None => None,
        Some(_) => {
            let i = first_from(url, "crs"@, 0)->Some_0 as int;
            let parts = split_on(url.skip(i + 4), '/');
            if parts.len() == 3 {
                Some((url.take(i + 3), parts[0], parts[1], parts[2]))
            } else {
                None
            }
        },
    }
}

/// `cjseq::ReferenceSystem::from_url`: split an OGC CRS URL
/// (`.../def/crs/{authority}/{version}/{code}`) into its parts. Claimed of
/// it, from its source: a URL without the OGC marker is refused; otherwise
/// the base URL is everything through the first `crs`, and what follows the
/// character after it must be exactly three `/`-separated parts. The
/// `requires` leaves out the URLs on which its byte slicing panics.
#[verifier::external_body]
pub(crate) fn ogc_url_parts(url: &str) -> (r: Option<ReferenceSystem>)
    requires
        from_url_defined(url@),
    ensures
        match from_url_spec(url@) {
            None => r is None,
            Some((b, a, v, c)) => r matches Some(rs) && rs.base_url@ == b && rs.authority@ == a
                && rs.version@ == v && rs.code@ == c,
        },
{
    cjseq::ReferenceSystem::from_url(url).ok().map(|rs| ReferenceSystem {
        base_url: rs.base_url,
        authority: rs.authority,
        version: rs.version,
        code: rs.code,
    })
}


proof fn lemma_geographic_codes_have_four_digits(c: Seq<char>)
    ensures
        is_geographic_epsg(c) ==> c.len() == 4,
{
    reveal_strlit("4326"); reveal_strlit("4979"); reveal_strlit("4258"); reveal_strlit("4937");
    reveal_strlit("4269"); reveal_strlit("4267"); reveal_strlit("4283"); reveal_strlit("7844");
    reveal_strlit("4289"); reveal_strlit("4230"); reveal_strlit("4171"); reveal_strlit("4612");
    reveal_strlit("6668"); reveal_strlit("4490"); reveal_strlit("4019"); reveal_strlit("4322");
}

proof fn lemma_adv_literals()
    ensures
        "ETRS89_UTM32*DE_DHHN92_NH"@.len() == 25,
        "ETRS89_UTM33*DE_DHHN92_NH"@.len() == 25,
        "ETRS89_UTM32"@.len() == 12,
        "ETRS89_UTM33"@.len() == 12,
        "ETRS89_UTM32"@ != "ETRS89_UTM33"@,
        "ETRS89_UTM32*DE_DHHN92_NH"@ != "ETRS89_UTM33*DE_DHHN92_NH"@,
        "5555"@ != "5556"@,
        "5555"@.len() == 4,
        "5556"@.len() == 4,
        "25832"@.len() == 5,
        "25833"@.len() == 5,
        "25832"@ != "25833"@,
{
    reveal_strlit("ETRS89_UTM32*DE_DHHN92_NH");
    reveal_strlit("ETRS89_UTM33*DE_DHHN92_NH");
    reveal_strlit("ETRS89_UTM32");
    reveal_strlit("ETRS89_UTM33");
    reveal_strlit("5555");
    reveal_strlit("5556");
    reveal_strlit("25832");
    reveal_strlit("25833");
    assert("ETRS89_UTM32"@[11] != "ETRS89_UTM33"@[11]);
    assert("ETRS89_UTM32*DE_DHHN92_NH"@[11] != "ETRS89_UTM33*DE_DHHN92_NH"@[11]);
    assert("5555"@[3] != "5556"@[3]);
    assert("25832"@[4] != "25833"@[4]);
}

/// The German AdV names for ETRS89 / UTM zone `z` (zones 32 and 33)
/// resolve to EPSG `258<z>`, and with the DHHN92 height to the compound
/// codes 5555 and 5556; none of them is refused as geographic.
pub proof fn lemma_adv_utm_zones(z: Seq<char>)
    requires
        z == "32"@ || z == "33"@,
    ensures
        epsg_code_spec("urn:adv:crs:"@ + ("ETRS89_UTM"@ + z)) == Some("258"@ + z),
        epsg_code_spec("urn:adv:crs:"@ + ("ETRS89_UTM"@ + z + "*DE_DHHN92_NH"@))
            == Some(if z == "32"@ { "5555"@ } else { "5556"@ }),
        !is_geographic_epsg("258"@ + z),
{
    reveal_strlit("urn:adv:crs:");
    reveal_strlit("ETRS89_UTM");
    reveal_strlit("*DE_DHHN92_NH");
    reveal_strlit("32");
    reveal_strlit("33");
    reveal_strlit("258");
    reveal_strlit("ETRS89_UTM32*DE_DHHN92_NH");
    reveal_strlit("ETRS89_UTM33*DE_DHHN92_NH");
    reveal_strlit("ETRS89_UTM32");
    reveal_strlit("ETRS89_UTM33");
    reveal_strlit("25832");
    reveal_strlit("25833");
    lemma_adv_literals();
    lemma_geographic_codes_have_four_digits("258"@ + z);
    let p = "urn:adv:crs:"@;
    let a = "ETRS89_UTM"@ + z;
    let b = "ETRS89_UTM"@ + z + "*DE_DHHN92_NH"@;
    assert((p + a).take(p.len() as int) =~= p);
    assert((p + a).skip(p.len() as int) =~= a);
    assert(has_prefix(p + a, p));
    assert((p + b).take(p.len() as int) =~= p);
    assert((p + b).skip(p.len() as int) =~= b);
    assert(has_prefix(p + b, p));
    if z == "32"@ {
        assert(a =~= "ETRS89_UTM32"@);
        assert(b =~= "ETRS89_UTM32*DE_DHHN92_NH"@);
        assert("258"@ + z =~= "25832"@);
    } else {
        assert(a =~= "ETRS89_UTM33"@);
        assert(b =~= "ETRS89_UTM33*DE_DHHN92_NH"@);
        assert("258"@ + z =~= "25833"@);
    }
}

/// Distinct AdV names resolve to distinct codes.
pub proof fn lemma_adv_codes_distinct(a: Seq<char>, b: Seq<char>)
    requires
        adv_code(a) is Some,
        adv_code(a) == adv_code(b),
    ensures
        a == b,
{
    lemma_adv_literals();
}


proof fn lemma_tokens_run(s: Seq<char>, cur: Seq<char>, k: int)
    requires
        0 <= k <= s.len(),
        forall|i: int| 0 <= i < k ==> !is_sep(#[trigger] s[i]),
    ensures
        tokens_from(s, cur) == tokens_from(s.skip(k), cur + s.take(k)),
    decreases k,
{
    if k > 0 {
        assert(!is_sep(s[0]));
        let t = s.drop_first();
        assert forall|i: int| 0 <= i < k - 1 implies !is_sep(#[trigger] t[i]) by {
            assert(t[i] == s[i + 1]);
        }
        lemma_tokens_run(t, cur.push(s[0]), k - 1);
        assert(t.skip(k - 1) =~= s.skip(k));
        assert(cur.push(s[0]) + t.take(k - 1) =~= cur + s.take(k));
    } else {
        assert(s.skip(0) =~= s);
        assert(cur + s.take(0) =~= cur);
    }
}

/// `EPSG:<code>` names EPSG `<code>` for every code of at least four digits.
pub proof fn lemma_epsg_short_form(code: Seq<char>)
    requires
        code.len() >= 4,
        all_digits(code),
    ensures
        epsg_code_spec("EPSG:"@ + code) == Some(code),
{
    reveal_strlit("EPSG:");
    reveal_strlit("EPSG");
    reveal_strlit("urn:adv:crs:");
    let name = "EPSG:"@ + code;
    assert(!has_prefix(name, "urn:adv:crs:"@)) by {
        if has_prefix(name, "urn:adv:crs:"@) {
            assert(name.take(12)[0] == name[0]);
        }
    }
    assert forall|i: int| 0 <= i < 4 implies !is_sep(#[trigger] name[i]) by {}
    lemma_tokens_run(name, Seq::empty(), 4);
    assert(Seq::<char>::empty() + name.take(4) =~= "EPSG"@);
    let rest = name.skip(4);
    assert(rest[0] == ':');
    assert(rest.drop_first() =~= code);
    assert forall|i: int| 0 <= i < code.len() implies !is_sep(#[trigger] code[i]) by {
        assert(is_digit(code[i]));
    }
    lemma_tokens_run(code, Seq::empty(), code.len() as int);
    assert(code.skip(code.len() as int) =~= Seq::<char>::empty());
    assert(Seq::<char>::empty() + code.take(code.len() as int) =~= code);
    let ts = tokens(name);
    assert(flush("EPSG"@) =~= seq!["EPSG"@]);
    assert(flush(code) =~= seq![code]);
    assert(ts =~= seq!["EPSG"@, code]);
    assert(eq_ignore_case(ts[0], "EPSG"@));
    assert(has_epsg_token(ts));
    assert(is_code_token(ts.last()));
}

} // verus!
