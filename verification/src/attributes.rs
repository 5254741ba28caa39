//! Building attribute routing for the CityGML writer: each attribute value is
//! routed by the column type it round-trips through to a typed `bldg:`
//! element or a type-matched `gen:` generic attribute.
//!
//! The round trip is package-level: the re-read `name -> type` map and values
//! must match, so a value is written as the `bldg:` element only when its
//! stored type equals the type the reader forces back for that name;
//! otherwise it falls back to the `gen:` element of its stored type. Values
//! CityGML 2.0 cannot represent are skipped and counted, never an error.

use vstd::prelude::*;
use crate::json::{JsonNumber, JsonValue, JsonView, NumView, items_view, lemma_items_view};
use crate::crs::{number_text, number_to_string};
use crate::report::WriteReport;
use crate::text::{chars_of, is_digit, is_ws, owned, str_eq, trim, trim_chars};

verus! {

/// The stored column type a value round-trips through.
#[derive(Debug, PartialEq, Eq, Structural)]
pub enum ValueKind {
    Str,
    Int,
    Float,
    /// A date-shaped string (`YYYY-MM-DD`), which re-infers as a Date column.
    Date,
    /// Boolean, nested or heterogeneous JSON, single or empty string list:
    /// no round-trip-stable CityGML 2.0 form.
    Unwritable,
}

/// The element an attribute value is written as.
#[derive(Debug, PartialEq, Eq, Structural)]
pub enum AttrElement {
    /// `bldg:<name>`.
    Bldg,
    /// `bldg:<name>` with `uom="m"`.
    BldgMetres,
    /// `gen:stringAttribute`.
    GenString,
    /// `gen:intAttribute`.
    GenInt,
    /// `gen:doubleAttribute`.
    GenDouble,
    /// `gen:dateAttribute`.
    GenDate,
}

/// `YYYY-MM-DD`: ten characters, dashes at 4 and 7, ASCII digits elsewhere.
pub open spec fn is_date_shaped_spec(s: Seq<char>) -> bool {
    &&& s.len() == 10
    &&& s[4] == '-'
    &&& s[7] == '-'
    &&& forall|i: int| 0 <= i < 10 && i != 4 && i != 7 ==> is_digit(#[trigger] s[i])
}

/// A control character that XML 1.0 forbids (all below 0x20 but tab, line
/// feed and carriage return).
pub open spec fn is_xml_illegal(c: char) -> bool {
    let u = c as u32;
    u < 0x20 && u != 0x9 && u != 0xA && u != 0xD
}

/// A string CityGML/XML cannot carry losslessly: empty or white space only
/// (the reader drops it), or holding an XML-1.0-illegal control character.
pub open spec fn is_unwritable_string_spec(s: Seq<char>) -> bool {
    trim(s).len() == 0 || exists|i: int| 0 <= i < s.len() && is_xml_illegal(#[trigger] s[i])
}

/// The column type a JSON value round-trips through, decided by its shape.
pub open spec fn value_kind_spec(v: JsonView) -> ValueKind {
    match v {
        JsonView::Str(s) => if is_date_shaped_spec(s) { ValueKind::Date } else { ValueKind::Str },
        JsonView::Number(NumView::Float(_)) => ValueKind::Float,
        JsonView::Number(_) => ValueKind::Int,
        _ => ValueKind::Unwritable,
    }
}

/// The reader-forced type of a typed `bldg:` attribute name.
pub open spec fn bldg_forced_kind_spec(name: Seq<char>) -> Option<ValueKind> {
    if name == "function"@ || name == "usage"@ || name == "class"@ || name == "roofType"@
        || name == "yearOfConstruction"@ || name == "yearOfDemolition"@ {
        Some(ValueKind::Str)
    } else if name == "measuredHeight"@ {
        Some(ValueKind::Float)
    } else if name == "storeysAboveGround"@ || name == "storeysBelowGround"@ {
        Some(ValueKind::Int)
    } else {
        None
    }
}

/// An integer value that reads back as a non-negative `i64`.
pub open spec fn is_nonneg_i64(v: JsonView) -> bool {
    match v {
        JsonView::Number(NumView::PosInt(u)) => u <= i64::MAX,
        JsonView::Number(NumView::NegInt(i)) => i >= 0,
        _ => false,
    }
}

/// Where one scalar value under `name` goes; `None` when it is skipped.
pub open spec fn route_spec(name: Seq<char>, v: JsonView) -> Option<AttrElement> {
    if v matches JsonView::Str(s) && is_unwritable_string_spec(s) {
        None
    } else {
        match value_kind_spec(v) {
            ValueKind::Unwritable => None,
            ValueKind::Str => if bldg_forced_kind_spec(name) == Some(ValueKind::Str) {
                Some(AttrElement::Bldg)
            } else {
                Some(AttrElement::GenString)
            },
            ValueKind::Date => Some(AttrElement::GenDate),
            ValueKind::Int => if bldg_forced_kind_spec(name) == Some(ValueKind::Int) && is_nonneg_i64(v) {
                Some(AttrElement::Bldg)
            } else {
                Some(AttrElement::GenInt)
            },
            ValueKind::Float => if bldg_forced_kind_spec(name) == Some(ValueKind::Float) {
                Some(AttrElement::BldgMetres)
            } else {
                Some(AttrElement::GenDouble)
            },
        }
    }
}

/// The element text of a written value: strings verbatim, numbers in their
/// shortest round-trip decimal form.
pub open spec fn scalar_text_spec(v: JsonView) -> Seq<char> {
    match v {
        JsonView::Str(s) => s,
        JsonView::Number(n) => number_text(n),
        _ => Seq::empty(),
    }
}

fn all_digits_in(s: &[char], lo: usize, hi: usize) -> (r: bool)
    requires
        lo <= hi <= s@.len(),
    ensures
        r == forall|i: int| lo <= i < hi ==> is_digit(#[trigger] s@[i]),
{
    let mut i = lo;
    while i < hi
        invariant
            lo <= i <= hi <= s@.len(),
            forall|j: int| lo <= j < i ==> is_digit(#[trigger] s@[j]),
        decreases hi - i,
    {
        if !(s[i] >= '0' && s[i] <= '9') {
            return false;
        }
        i = i + 1;
    }
    true
}

/// A `YYYY-MM-DD`-shaped string.
pub fn is_date_shaped(s: &str) -> (r: bool)
    ensures
        r == is_date_shaped_spec(s@),
{
    let c = chars_of(s);
    if c.len() != 10 || c[4] != '-' || c[7] != '-' {
        return false;
    }
    let r = all_digits_in(c.as_slice(), 0, 4) && all_digits_in(c.as_slice(), 5, 7)
        && all_digits_in(c.as_slice(), 8, 10);
    proof {
        if r {
            assert forall|i: int| 0 <= i < 10 && i != 4 && i != 7 implies is_digit(#[trigger] s@[i]) by {
                if i < 4 {
                    assert(is_digit(c@[i]));
                } else if i < 7 {
                    assert(is_digit(c@[i]));
                } else {
                    assert(is_digit(c@[i]));
                }
            }
        }
    }
    r
}

/// A string CityGML/XML cannot carry losslessly.
pub fn is_unwritable_string(s: &str) -> (r: bool)
    ensures
        r == is_unwritable_string_spec(s@),
{
    let c = chars_of(s);
    let t = trim_chars(c.as_slice());
    if t.len() == 0 {
        return true;
    }
    let mut i: usize = 0;
    while i < c.len()
        invariant
            i <= c@.len(),
            c@ == s@,
            forall|j: int| 0 <= j < i ==> !is_xml_illegal(#[trigger] c@[j]),
        decreases c.len() - i,
    {
        let u: u32 = c[i] as u32;
        if u < 0x20 && u != 0x9 && u != 0xA && u != 0xD {
            assert(is_xml_illegal(s@[i as int]));
            return true;
        }
        i = i + 1;
    }
    false
}

/// The column type a JSON value round-trips through.
pub fn value_kind(v: &JsonValue) -> (k: ValueKind)
    ensures
        k == value_kind_spec(v@),
{
    match v {
        JsonValue::String(s) => if is_date_shaped(s.as_str()) { ValueKind::Date } else { ValueKind::Str },
        JsonValue::Number(JsonNumber::Float(_)) => ValueKind::Float,
        JsonValue::Number(_) => ValueKind::Int,
        _ => ValueKind::Unwritable,
    }
}

/// The reader-forced type for a typed `bldg:` name, or `None` when the name
/// is not a known typed attribute.
pub fn bldg_forced_kind(name: &str) -> (r: Option<ValueKind>)
    ensures
        r == bldg_forced_kind_spec(name@),
{
    if str_eq(name, "function") || str_eq(name, "usage") || str_eq(name, "class")
        || str_eq(name, "roofType") || str_eq(name, "yearOfConstruction")
        || str_eq(name, "yearOfDemolition") {
        Some(ValueKind::Str)
    } else if str_eq(name, "measuredHeight") {
        Some(ValueKind::Float)
    } else if str_eq(name, "storeysAboveGround") || str_eq(name, "storeysBelowGround") {
        Some(ValueKind::Int)
    } else {
        None
    }
}

fn forced_is(f: &Option<ValueKind>, k: ValueKind) -> (r: bool)
    ensures
        r == (*f == Some(k)),
{
    match f {
        Some(x) => match (x, k) {
            (ValueKind::Str, ValueKind::Str) => true,
            (ValueKind::Int, ValueKind::Int) => true,
            (ValueKind::Float, ValueKind::Float) => true,
            (ValueKind::Date, ValueKind::Date) => true,
            (ValueKind::Unwritable, ValueKind::Unwritable) => true,
            _ => false,
        },
        None => false,
    }
}

/// The text of a scalar value.
pub fn scalar_text(v: &JsonValue) -> (t: std::string::String)
    ensures
        t@ == scalar_text_spec(v@),
{
    match v {
        JsonValue::String(s) => owned(s.as_str()),
        JsonValue::Number(n) => number_to_string(n),
        _ => std::string::String::new(),
    }
}

/// Where one scalar value under `name` is written; `None` when it is skipped.
pub fn route(name: &str, v: &JsonValue) -> (r: Option<AttrElement>)
    ensures
        r == route_spec(name@, v@),
{
    if let JsonValue::String(s) = v {
        if is_unwritable_string(s.as_str()) {
            return None;
        }
    }
    let forced = bldg_forced_kind(name);
    match value_kind(v) {
        ValueKind::Unwritable => None,
        ValueKind::Str => if forced_is(&forced, ValueKind::Str) {
            Some(AttrElement::Bldg)
        } else {
            Some(AttrElement::GenString)
        },
        ValueKind::Date => Some(AttrElement::GenDate),
        ValueKind::Int => {
            let nonneg = match v {
                JsonValue::Number(JsonNumber::PosInt(u)) => *u <= 0x7fff_ffff_ffff_ffffu64,
                JsonValue::Number(JsonNumber::NegInt(i)) => *i >= 0,
                _ => false,
            };
            if forced_is(&forced, ValueKind::Int) && nonneg {
                Some(AttrElement::Bldg)
            } else {
                Some(AttrElement::GenInt)
            }
        },
        ValueKind::Float => if forced_is(&forced, ValueKind::Float) {
            Some(AttrElement::BldgMetres)
        } else {
            Some(AttrElement::GenDouble)
        },
    }
}

/// One attribute element to write: the attribute's name, the element, and
/// the element text.
pub struct AttrEmit {
    pub name: std::string::String,
    pub element: AttrElement,
    pub text: std::string::String,
}

/// The spec view of one [`AttrEmit`].
pub open spec fn emit_view(e: AttrEmit) -> (Seq<char>, AttrElement, Seq<char>) {
    (e.name@, e.element, e.text@)
}

/// A list of at least two strings is written one element per item; every
/// other value is one item.
pub open spec fn is_string_list(items: Seq<JsonView>) -> bool {
    items.len() >= 2 && forall|i: int| 0 <= i < items.len() ==> (#[trigger] items[i]) is Str
}

/// The values written under one attribute, in order.
pub open spec fn attr_items(v: JsonView) -> Seq<JsonView> {
    match v {
        JsonView::Array(items) => if is_string_list(items) { items } else { seq![v] },
        _ => seq![v],
    }
}

/// The elements written for a list of values under `name`, in order.
pub open spec fn item_emits(name: Seq<char>, items: Seq<JsonView>) -> Seq<(Seq<char>, AttrElement, Seq<char>)>
    decreases items.len(),
{
    if items.len() == 0 {
        Seq::empty()
    } else {
        let rest = item_emits(name, items.drop_last());
        match route_spec(name, items.last()) {
            Some(e) => rest.push((name, e, scalar_text_spec(items.last()))),
            None => rest,
        }
    }
}

/// How many of a list of values under `name` are skipped.
pub open spec fn item_skips(name: Seq<char>, items: Seq<JsonView>) -> nat
    decreases items.len(),
{
    if items.len() == 0 {
        0
    } else {
        item_skips(name, items.drop_last()) + if route_spec(name, items.last()) is None { 1nat } else { 0nat }
    }
}

/// The elements written for a building's attributes, in order.
pub open spec fn attrs_emits(attrs: Seq<(Seq<char>, JsonView)>) -> Seq<(Seq<char>, AttrElement, Seq<char>)>
    decreases attrs.len(),
{
    if attrs.len() == 0 {
        Seq::empty()
    } else {
        attrs_emits(attrs.drop_last()) + item_emits(attrs.last().0, attr_items(attrs.last().1))
    }
}

/// How many attribute values are skipped.
pub open spec fn attrs_skips(attrs: Seq<(Seq<char>, JsonView)>) -> nat
    decreases attrs.len(),
{
    if attrs.len() == 0 {
        0
    } else {
        attrs_skips(attrs.drop_last()) + item_skips(attrs.last().0, attr_items(attrs.last().1))
    }
}

/// How many attribute values there are, each list item counted.
pub open spec fn attrs_values(attrs: Seq<(Seq<char>, JsonView)>) -> nat
    decreases attrs.len(),
{
    if attrs.len() == 0 {
        0
    } else {
        attrs_values(attrs.drop_last()) + attr_items(attrs.last().1).len()
    }
}

proof fn lemma_item_counts(name: Seq<char>, items: Seq<JsonView>)
    ensures
        item_emits(name, items).len() + item_skips(name, items) == items.len(),
    decreases items.len(),
{
    if items.len() > 0 {
        lemma_item_counts(name, items.drop_last());
    }
}

proof fn lemma_attrs_counts(attrs: Seq<(Seq<char>, JsonView)>)
    ensures
        attrs_emits(attrs).len() + attrs_skips(attrs) == attrs_values(attrs),
    decreases attrs.len(),
{
    if attrs.len() > 0 {
        lemma_attrs_counts(attrs.drop_last());
        lemma_item_counts(attrs.last().0, attr_items(attrs.last().1));
    }
}

proof fn lemma_attrs_prefix(attrs: Seq<(Seq<char>, JsonView)>, i: int)
    requires
        0 <= i < attrs.len(),
    ensures
        attrs_emits(attrs.take(i + 1)) == attrs_emits(attrs.take(i)) + item_emits(attrs[i].0, attr_items(attrs[i].1)),
        attrs_skips(attrs.take(i + 1)) == attrs_skips(attrs.take(i)) + item_skips(attrs[i].0, attr_items(attrs[i].1)),
        attrs_values(attrs.take(i + 1)) == attrs_values(attrs.take(i)) + attr_items(attrs[i].1).len(),
{
    assert(attrs.take(i + 1).drop_last() =~= attrs.take(i));
}

proof fn lemma_attrs_values_mono(attrs: Seq<(Seq<char>, JsonView)>, i: int)
    requires
        0 <= i <= attrs.len(),
    ensures
        attrs_values(attrs.take(i)) <= attrs_values(attrs),
    decreases attrs.len() - i,
{
    if i < attrs.len() {
        lemma_attrs_prefix(attrs, i);
        lemma_attrs_values_mono(attrs, i + 1);
    } else {
        assert(attrs.take(i) =~= attrs);
    }
}

/// The names and values of a list of attribute members.
pub open spec fn attrs_view(attrs: Seq<(std::string::String, JsonValue)>) -> Seq<(Seq<char>, JsonView)> {
    attrs.map_values(|p: (std::string::String, JsonValue)| (p.0@, p.1@))
}

/// The items of one attribute value: a list of two or more strings item by
/// item, anything else as itself.
fn value_items(v: &JsonValue) -> (r: Vec<&JsonValue>)
    ensures
        r@.len() == attr_items(v@).len(),
        forall|k: int| 0 <= k < r@.len() ==> (#[trigger] r@[k])@ == attr_items(v@)[k],
{
    let mut r: Vec<&JsonValue> = Vec::new();
    if let JsonValue::Array(items) = v {
        proof {
            lemma_items_view(items@);
        }
        let mut all_str = items.len() >= 2;
        let mut i: usize = 0;
        while i < items.len()
            invariant
                i <= items@.len(),
                all_str == (items@.len() >= 2 && forall|j: int| 0 <= j < i ==> (#[trigger] items@[j])@ is Str),
            decreases items.len() - i,
        {
            if !matches!(items[i], JsonValue::String(_)) {
                all_str = false;
            }
            i = i + 1;
        }
        let ghost iv = items_view(items@);
        assert(all_str == is_string_list(iv)) by {
            if all_str {
                assert forall|j: int| 0 <= j < iv.len() implies (#[trigger] iv[j]) is Str by {
                    assert(items@[j]@ is Str);
                }
            } else if items@.len() >= 2 {
                let j = choose|j: int| 0 <= j < items@.len() && !((#[trigger] items@[j])@ is Str);
                assert(!(iv[j] is Str));
            }
        }
        if all_str {
            let mut k: usize = 0;
            while k < items.len()
                invariant
                    k <= items@.len(),
                    iv == items_view(items@),
                    iv.len() == items@.len(),
                    forall|j: int| 0 <= j < items@.len() ==> #[trigger] iv[j] == items@[j]@,
                    r@.len() == k,
                    forall|j: int| 0 <= j < k ==> (#[trigger] r@[j])@ == iv[j],
                decreases items.len() - k,
            {
                r.push(&items[k]);
                k = k + 1;
            }
            return r;
        }
    }
    r.push(v);
    r
}

/// The `bldg:`/`gen:` elements a building's attributes are written as, in
/// attribute order and, within a string list, item order. Every value
/// written is counted in `report.attributes_written`, every value skipped in
/// `report.attributes_skipped`; nothing else of the report changes.
pub fn plan_attributes(attrs: &Vec<(std::string::String, JsonValue)>, report: &mut WriteReport) -> (out: Vec<AttrEmit>)
    requires
        old(report).attributes_written + attrs_values(attrs_view(attrs@)) <= usize::MAX,
        old(report).attributes_skipped + attrs_values(attrs_view(attrs@)) <= usize::MAX,
    ensures
        out@.map_values(|e: AttrEmit| emit_view(e)) == attrs_emits(attrs_view(attrs@)),
        final(report).attributes_written == old(report).attributes_written + out@.len(),
        final(report).attributes_skipped == old(report).attributes_skipped + attrs_skips(attrs_view(attrs@)),
        *final(report) == (WriteReport {
            attributes_written: final(report).attributes_written,
            attributes_skipped: final(report).attributes_skipped,
            ..*old(report)
        }),
{
    let ghost av = attrs_view(attrs@);
    let ghost w0 = report.attributes_written;
    let ghost s0 = report.attributes_skipped;
    let mut out: Vec<AttrEmit> = Vec::new();
    let mut a: usize = 0;
    assert(av.take(0) =~= Seq::<(Seq<char>, JsonView)>::empty());
    assert(out@.map_values(|e: AttrEmit| emit_view(e)) =~= attrs_emits(av.take(0)));
    while a < attrs.len()
        invariant
            a <= attrs@.len(),
            av == attrs_view(attrs@),
            av.len() == attrs@.len(),
            w0 + attrs_values(av) <= usize::MAX,
            s0 + attrs_values(av) <= usize::MAX,
            out@.map_values(|e: AttrEmit| emit_view(e)) == attrs_emits(av.take(a as int)),
            report.attributes_written == w0 + out@.len(),
            report.attributes_skipped == s0 + attrs_skips(av.take(a as int)),
            *report == (WriteReport { attributes_written: report.attributes_written, attributes_skipped: report.attributes_skipped, ..*old(report) }),
        decreases attrs.len() - a,
    {
        proof {
            lemma_attrs_prefix(av, a as int);
            lemma_attrs_values_mono(av, a + 1);
            lemma_attrs_counts(av.take(a + 1));
        }
        let name = &attrs[a].0;
        let items = value_items(&attrs[a].1);
        let ghost its = attr_items(attrs@[a as int].1@);
        let ghost base = out@.map_values(|e: AttrEmit| emit_view(e));
        let ghost skip_base = report.attributes_skipped;
        let mut k: usize = 0;
        assert(its.take(0) =~= Seq::<JsonView>::empty());
        while k < items.len()
            invariant
                k <= items@.len(),
                items@.len() == its.len(),
                forall|j: int| 0 <= j < items@.len() ==> (#[trigger] items@[j])@ == its[j],
                out@.map_values(|e: AttrEmit| emit_view(e)) == base + item_emits(name@, its.take(k as int)),
                report.attributes_written == w0 + out@.len(),
                report.attributes_skipped == skip_base + item_skips(name@, its.take(k as int)),
                base.len() + item_emits(name@, its).len() + w0 <= usize::MAX,
                skip_base + item_skips(name@, its) <= usize::MAX,
                *report == (WriteReport { attributes_written: report.attributes_written, attributes_skipped: report.attributes_skipped, ..*old(report) }),
            decreases items.len() - k,
        {
            let item = items[k];
            assert(its.take(k + 1).drop_last() =~= its.take(k as int));
            proof {
                lemma_item_prefix_bounds(name@, its, k as int);
            }
            match route(name.as_str(), item) {
                Some(e) => {
                    let text = scalar_text(item);
                    let ghost before = out@;
                    out.push(AttrEmit { name: owned(name.as_str()), element: e, text });
                    assert(out@.map_values(|e: AttrEmit| emit_view(e)) =~= before.map_values(|e: AttrEmit| emit_view(e)).push(emit_view(out@.last())));
                    report.attributes_written = report.attributes_written + 1;
                },
                None => {
                    report.attributes_skipped = report.attributes_skipped + 1;
                },
            }
            k = k + 1;
        }
        assert(its.take(items.len() as int) =~= its);
        a = a + 1;
    }
    assert(av.take(attrs.len() as int) =~= av);
    out
}

proof fn lemma_item_prefix_bounds(name: Seq<char>, items: Seq<JsonView>, k: int)
    requires
        0 <= k < items.len(),
    ensures
        item_emits(name, items.take(k + 1)).len() <= item_emits(name, items).len(),
        item_skips(name, items.take(k + 1)) <= item_skips(name, items),
    decreases items.len() - k,
{
    if k + 1 < items.len() {
        lemma_item_prefix_bounds(name, items, k + 1);
        assert(items.take(k + 2).drop_last() =~= items.take(k + 1));
    } else {
        assert(items.take(k + 1) =~= items);
    }
}


/// Storey counts are written as typed `bldg:` elements exactly when they are
/// non-negative integers (zero included: a building without a basement has
/// `storeysBelowGround` 0); a negative count falls back to a generic
/// integer attribute.
pub proof fn lemma_storeys_route(name: Seq<char>, u: u64, i: i64)
    requires
        name == "storeysAboveGround"@ || name == "storeysBelowGround"@,
    ensures
        u <= i64::MAX ==> route_spec(name, JsonView::Number(NumView::PosInt(u))) == Some(AttrElement::Bldg),
        i >= 0 ==> route_spec(name, JsonView::Number(NumView::NegInt(i))) == Some(AttrElement::Bldg),
        i < 0 ==> route_spec(name, JsonView::Number(NumView::NegInt(i))) == Some(AttrElement::GenInt),
{
    reveal_strlit("storeysAboveGround");
    reveal_strlit("storeysBelowGround");
    reveal_strlit("function");
    reveal_strlit("usage");
    reveal_strlit("class");
    reveal_strlit("roofType");
    reveal_strlit("yearOfConstruction");
    reveal_strlit("yearOfDemolition");
    reveal_strlit("measuredHeight");
    assert(name[0] == 's');
    assert(name != "function"@) by { assert("function"@[0] == 'f'); }
    assert(name != "usage"@) by { assert("usage"@[0] == 'u'); }
    assert(name != "class"@) by { assert("class"@[0] == 'c'); }
    assert(name != "roofType"@) by { assert("roofType"@[0] == 'r'); }
    assert(name != "yearOfConstruction"@) by { assert("yearOfConstruction"@[0] == 'y'); }
    assert(name != "yearOfDemolition"@) by { assert("yearOfDemolition"@[0] == 'y'); }
    assert(name != "measuredHeight"@) by { assert("measuredHeight"@[0] == 'm'); }
    assert(bldg_forced_kind_spec(name) == Some(ValueKind::Int));
}

/// An integer under a name with no typed `bldg:` integer element is a
/// generic integer attribute, whatever its sign.
pub proof fn lemma_other_ints_route(name: Seq<char>, n: NumView)
    requires
        !(n is Float),
        name != "storeysAboveGround"@ && name != "storeysBelowGround"@,
    ensures
        route_spec(name, JsonView::Number(n)) == Some(AttrElement::GenInt),
{
    reveal_strlit("storeysAboveGround");
    reveal_strlit("storeysBelowGround");
    reveal_strlit("function");
    reveal_strlit("usage");
    reveal_strlit("class");
    reveal_strlit("roofType");
    reveal_strlit("yearOfConstruction");
    reveal_strlit("yearOfDemolition");
    reveal_strlit("measuredHeight");
}


/// A measured height that is a float is written as `bldg:measuredHeight`
/// in metres; a float under any other name is a generic double attribute.
pub proof fn lemma_float_route(name: Seq<char>, t: Seq<char>)
    ensures
        name == "measuredHeight"@ ==> route_spec(name, JsonView::Number(NumView::Float(t))) == Some(AttrElement::BldgMetres),
        name != "measuredHeight"@ ==> route_spec(name, JsonView::Number(NumView::Float(t))) == Some(AttrElement::GenDouble),
{
    reveal_strlit("measuredHeight");
    reveal_strlit("function");
    reveal_strlit("usage");
    reveal_strlit("class");
    reveal_strlit("roofType");
    reveal_strlit("yearOfConstruction");
    reveal_strlit("yearOfDemolition");
    reveal_strlit("storeysAboveGround");
    reveal_strlit("storeysBelowGround");
    if name == "measuredHeight"@ {
        assert(name != "function"@) by { assert("function"@[0] == 'f'); }
        assert(name != "usage"@) by { assert("usage"@[0] == 'u'); }
        assert(name != "class"@) by { assert("class"@[0] == 'c'); }
        assert(name != "roofType"@) by { assert("roofType"@[0] == 'r'); }
        assert(name != "yearOfConstruction"@) by { assert("yearOfConstruction"@[0] == 'y'); }
        assert(name != "yearOfDemolition"@) by { assert("yearOfDemolition"@[0] == 'y'); }
    }
}

/// Booleans, `null`, arrays and objects have no round-trip-stable CityGML
/// 2.0 form and are never written, under any name.
pub proof fn lemma_unwritable_values_skipped(name: Seq<char>, v: JsonView)
    requires
        v is Bool || v is Null || v is Array || v is Object,
    ensures
        route_spec(name, v) is None,
{
}

} // verus!
