//! Coercing a CityObject attribute value to its column's type on encode.
//!
//! Each attribute column has one type. A value of that type is stored; an
//! absent or `null` value is a null cell; a value that cannot be read as the
//! column's type is a null cell too, and counted as a coercion failure
//! (never an error). Dates are `%Y-%m-%d` text stored as days since
//! 1970-01-01, timestamps RFC 3339 text stored as milliseconds since the
//! epoch in UTC; both are read by `chrono`.

use vstd::prelude::*;
use crate::json::{JsonNumber, JsonValue, JsonView, NumView, clone_json, clone_number, items_view, lemma_items_view};
use crate::report::EncodeStats;
use crate::text::owned;
use chrono::Datelike;

verus! {

/// An attribute column's type.
#[derive(Debug, Clone, Copy, PartialEq, Eq, Structural)]
pub enum AttributeType {
    Boolean,
    Int64,
    Float64,
    Date,
    Timestamp,
    String,
    StringList,
    Json,
}

/// One encoded attribute cell.
#[derive(Debug)]
pub enum Cell {
    Null,
    Boolean(bool),
    Int64(i64),
    /// A Float64 cell: the number as the JSON value holds it.
    Float64(JsonNumber),
    /// Days since 1970-01-01.
    Date(i32),
    /// Milliseconds since 1970-01-01T00:00:00Z.
    Timestamp(i64),
    String(std::string::String),
    StringList(Vec<std::string::String>),
    /// A JSON cell: the value, written out as JSON text.
    Json(JsonValue),
}

/// A cell as plain values.
pub enum CellV {
    Null,
    Boolean(bool),
    Int64(i64),
    Float64(NumView),
    Date(i32),
    Timestamp(i64),
    String(Seq<char>),
    StringList(Seq<Seq<char>>),
    Json(JsonView),
}

pub open spec fn cell_view(c: Cell) -> CellV {
    match c {
        Cell::Null => CellV::Null,
        Cell::Boolean(b) => CellV::Boolean(b),
        Cell::Int64(i) => CellV::Int64(i),
        Cell::Float64(n) => CellV::Float64(crate::json::num_view(n)),
        Cell::Date(d) => CellV::Date(d),
        Cell::Timestamp(t) => CellV::Timestamp(t),
        Cell::String(s) => CellV::String(s@),
        Cell::StringList(v) => CellV::StringList(v@.map_values(|s: std::string::String| s@)),
        Cell::Json(j) => CellV::Json(j@),
    }
}

/// The year, month and day of a `%Y-%m-%d` date text, as `chrono` parses
/// it into a valid calendar date; `None` when it does not parse.
pub uninterp spec fn parsed_date(text: Seq<char>) -> Option<(i32, u32, u32)>;

/// The smallest and largest years of a `chrono` date.
pub const MIN_DATE_YEAR: i32 = -262143;
pub const MAX_DATE_YEAR: i32 = 262142;

/// The days from 1970-01-01 to the proleptic Gregorian date `y-m-d`
/// (negative before it): March-based years, so that the leap day ends a
/// year, counted from 0000-03-01.
pub open spec fn civil_days(y: int, m: int, d: int) -> int {
    let yy = if m <= 2 { y - 1 } else { y };
    let mm = if m > 2 { m - 3 } else { m + 9 };
    let doy = (153 * mm + 2) / 5 + d - 1;
    365 * yy + yy / 4 - yy / 100 + yy / 400 + doy - 719468
}

/// The days since 1970-01-01 of a `%Y-%m-%d` date text; `None` when it does
/// not parse.
pub open spec fn epoch_days(text: Seq<char>) -> Option<i32> {
    match parsed_date(text) {
        Some((y, m, d)) => Some(civil_days(y as int, m as int, d as int) as i32),
        None => None,
    }
}

/// The milliseconds since the epoch (UTC) of an RFC 3339 date-time text, as
/// `chrono` parses it; `None` when it does not parse.
pub uninterp spec fn rfc3339_millis(text: Seq<char>) -> Option<i64>;

/// `chrono::NaiveDate::parse_from_str(text, "%Y-%m-%d")`, read back as its
/// year, month and day (`Datelike`). Claimed: the result is a function of
/// the text alone, named [`parsed_date`]; a parsed date has a month in
/// 1..=12, a day in 1..=31 and a year within chrono's date range
/// (`NaiveDate::MIN` to `NaiveDate::MAX`). Which texts parse, and that the
/// day exists in that month, is not stated.
#[verifier::external_body]
fn parse_date(text: &str) -> (r: Option<(i32, u32, u32)>)
    ensures
        r == parsed_date(text@),
        r matches Some((y, m, d)) ==> MIN_DATE_YEAR <= y <= MAX_DATE_YEAR && 1 <= m <= 12 && 1 <= d <= 31,
{
    match chrono::NaiveDate::parse_from_str(text, "%Y-%m-%d") {
        Ok(date) => Some((date.year(), date.month(), date.day())),
        Err(_) => None,
    }
}

/// The days from 1970-01-01 to `y-m-d` (see [`civil_days`]). The year is
/// shifted by 400000 (a whole number of 400-year cycles) so that every
/// division is of a non-negative number.
pub fn days_since_epoch(y: i32, m: u32, d: u32) -> (r: i32)
    requires
        MIN_DATE_YEAR <= y <= MAX_DATE_YEAR,
        1 <= m <= 12,
        1 <= d <= 31,
    ensures
        r as int == civil_days(y as int, m as int, d as int),
{
    let yy: i64 = if m <= 2 { y as i64 - 1 } else { y as i64 };
    let mm: i64 = if m > 2 { m as i64 - 3 } else { m as i64 + 9 };
    let doy: i64 = (153 * mm + 2) / 5 + d as i64 - 1;
    let shifted: i64 = yy + 400000;
    let a: i64 = shifted / 4 - 100000;
    let b: i64 = shifted / 100 - 4000;
    let c: i64 = shifted / 400 - 1000;
    proof {
        let sy = shifted as int;
        assert(a as int == (yy as int) / 4) by (nonlinear_arith)
            requires sy == yy as int + 400000, sy >= 0, a as int == sy / 4 - 100000;
        assert(b as int == (yy as int) / 100) by (nonlinear_arith)
            requires sy == yy as int + 400000, sy >= 0, b as int == sy / 100 - 4000;
        assert(c as int == (yy as int) / 400) by (nonlinear_arith)
            requires sy == yy as int + 400000, sy >= 0, c as int == sy / 400 - 1000;
    }
    let days: i64 = 365 * yy + a - b + c + doy - 719468;
    days as i32
}

/// `chrono::DateTime::parse_from_rfc3339(text)`, then the instant's
/// milliseconds since the epoch in UTC (`with_timezone(&Utc)` and
/// `timestamp_millis`). Claimed: the result is a function of the text alone,
/// named [`rfc3339_millis`]; nothing more is said of it.
#[verifier::external_body]
fn timestamp_epoch_millis(text: &str) -> (r: Option<i64>)
    ensures
        r == rfc3339_millis(text@),
{
    match chrono::DateTime::parse_from_rfc3339(text) {
        Ok(dt) => Some(dt.with_timezone(&chrono::Utc).timestamp_millis()),
        Err(_) => None,
    }
}

/// `Value::as_i64`: a number that is an integer in `i64` range.
pub open spec fn as_i64_spec(v: JsonView) -> Option<i64> {
    match v {
        JsonView::Number(NumView::PosInt(u)) => if u <= i64::MAX { Some(u as i64) } else { None },
        JsonView::Number(NumView::NegInt(i)) => Some(i),
        _ => None,
    }
}

/// The texts of a list whose items are all strings.
pub open spec fn all_strings(items: Seq<JsonView>) -> Option<Seq<Seq<char>>> {
    if forall|k: int| 0 <= k < items.len() ==> (#[trigger] items[k]) is Str {
        Some(items.map_values(|x: JsonView| x->Str_0))
    } else {
        None
    }
}

/// The cell a present (non-`null`) value gives a column of type `ty`;
/// `None` when the value cannot be read as that type.
pub open spec fn coerced(ty: AttributeType, v: JsonView) -> Option<CellV> {
    match ty {
        AttributeType::Boolean => match v {
            JsonView::Bool(b) => Some(CellV::Boolean(b)),
            _ => None,
        },
        AttributeType::Int64 => match as_i64_spec(v) {
            Some(i) => Some(CellV::Int64(i)),
            None => None,
        },
        AttributeType::Float64 => match v {
            JsonView::Number(n) => Some(CellV::Float64(n)),
            _ => None,
        },
        AttributeType::Date => match v {
            JsonView::Str(s) => match epoch_days(s) {
                Some(d) => Some(CellV::Date(d)),
                None => None,
            },
            _ => None,
        },
        AttributeType::Timestamp => match v {
            JsonView::Str(s) => match rfc3339_millis(s) {
                Some(t) => Some(CellV::Timestamp(t)),
                None => None,
            },
            _ => None,
        },
        AttributeType::String => match v {
            JsonView::Str(s) => Some(CellV::String(s)),
            _ => None,
        },
        AttributeType::StringList => match v {
            JsonView::Array(items) => match all_strings(items) {
                Some(ts) => Some(CellV::StringList(ts)),
                None => None,
            },
            _ => None,
        },
        AttributeType::Json => Some(CellV::Json(v)),
    }
}

/// The value of an attribute, `null` counting as absent.
pub open spec fn present(value: Option<JsonView>) -> Option<JsonView> {
    match value {
        Some(v) => if v is Null { None } else { Some(v) },
        None => None,
    }
}

/// The cell a value gives a column of type `ty`, and whether it is a
/// coercion failure: an absent value is a null cell and no failure; a
/// present value that cannot be read as the type is a null cell and a
/// failure.
pub open spec fn encode_spec(ty: AttributeType, value: Option<JsonView>) -> (CellV, bool) {
    match present(value) {
        None => (CellV::Null, false),
        Some(v) => match coerced(ty, v) {
            Some(c) => (c, false),
            None => (CellV::Null, true),
        },
    }
}

fn string_list(items: &Vec<JsonValue>) -> (r: Option<Vec<std::string::String>>)
    ensures
        match all_strings(items_view(items@)) {
            Some(ts) => r matches Some(v) && v@.map_values(|s: std::string::String| s@) == ts,
            None => r is None,
        },
{
    proof {
        lemma_items_view(items@);
    }
    let ghost iv = items_view(items@);
    let mut out: Vec<std::string::String> = Vec::new();
    let mut k: usize = 0;
    while k < items.len()
        invariant
            k <= items@.len(),
            iv == items_view(items@),
            iv.len() == items@.len(),
            forall|j: int| 0 <= j < items@.len() ==> #[trigger] iv[j] == items@[j]@,
            out@.len() == k,
            forall|j: int| 0 <= j < k ==> (#[trigger] iv[j]) is Str,
            forall|j: int| 0 <= j < k ==> (#[trigger] out@[j])@ == iv[j]->Str_0,
        decreases items.len() - k,
    {
        match &items[k] {
            JsonValue::String(s) => {
                assert(iv[k as int] == items@[k as int]@);
                out.push(owned(s.as_str()));
            },
            _ => {
                assert(!(iv[k as int] is Str));
                return None;
            },
        }
        k = k + 1;
    }
    assert(out@.map_values(|s: std::string::String| s@) =~= iv.map_values(|x: JsonView| x->Str_0));
    Some(out)
}

/// The cell one attribute value gives a column of type `ty` (see
/// [`encode_spec`]); a coercion failure is counted in `stats`.
pub fn encode_attribute(ty: AttributeType, value: Option<&JsonValue>, stats: &mut EncodeStats) -> (c: Cell)
    requires
        old(stats).attribute_coercion_nulls < usize::MAX,
    ensures
        ({
            let (cell, failed) = encode_spec(ty, match value { Some(v) => Some(v@), None => None });
            &&& cell_view(c) == cell
            &&& *final(stats) == (EncodeStats {
                attribute_coercion_nulls: if failed { (old(stats).attribute_coercion_nulls + 1) as usize } else { old(stats).attribute_coercion_nulls },
                ..*old(stats)
            })
        }),
{
    let v = match value {
        Some(JsonValue::Null) => return Cell::Null,
        Some(v) => v,
        None => return Cell::Null,
    };
    let cell = match ty {
        AttributeType::Boolean => match v {
            JsonValue::Bool(b) => Some(Cell::Boolean(*b)),
            _ => None,
        },
        AttributeType::Int64 => match v {
            JsonValue::Number(JsonNumber::PosInt(u)) => if *u <= 9223372036854775807u64 { Some(Cell::Int64(*u as i64)) } else { None },
            JsonValue::Number(JsonNumber::NegInt(i)) => Some(Cell::Int64(*i)),
            _ => None,
        },
        AttributeType::Float64 => match v {
            JsonValue::Number(n) => Some(Cell::Float64(clone_number(n))),
            _ => None,
        },
        AttributeType::Date => match v {
            JsonValue::String(s) => match parse_date(s.as_str()) {
                Some((y, m, d)) => Some(Cell::Date(days_since_epoch(y, m, d))),
                None => None,
            },
            _ => None,
        },
        AttributeType::Timestamp => match v {
            JsonValue::String(s) => match timestamp_epoch_millis(s.as_str()) {
                Some(t) => Some(Cell::Timestamp(t)),
                None => None,
            },
            _ => None,
        },
        AttributeType::String => match v {
            JsonValue::String(s) => Some(Cell::String(owned(s.as_str()))),
            _ => None,
        },
        AttributeType::StringList => match v {
            JsonValue::Array(items) => match string_list(items) {
                Some(ts) => Some(Cell::StringList(ts)),
                None => None,
            },
            _ => None,
        },
        AttributeType::Json => Some(Cell::Json(clone_json(v))),
    };
    match cell {
        Some(c) => c,
        None => {
            stats.attribute_coercion_nulls = stats.attribute_coercion_nulls + 1;
            Cell::Null
        },
    }
}


/// A float column keeps every JSON number: a present number of any kind
/// (non-negative integer, negative integer or float text) is stored as that
/// number, and is never a coercion failure; any other present value is a
/// failure.
pub proof fn lemma_float_column_keeps_numbers(v: JsonView)
    ensures
        v is Number ==> encode_spec(AttributeType::Float64, Some(v)) == (CellV::Float64(v->Number_0), false),
        !(v is Number) && !(v is Null) ==> encode_spec(AttributeType::Float64, Some(v)) == (CellV::Null, true),
{
}

/// An integer column keeps every integer in `i64` range as that integer.
pub proof fn lemma_int_column_keeps_integers(u: u64, i: i64)
    ensures
        encode_spec(AttributeType::Int64, Some(JsonView::Number(NumView::NegInt(i)))) == (CellV::Int64(i), false),
        u <= i64::MAX ==> encode_spec(AttributeType::Int64, Some(JsonView::Number(NumView::PosInt(u))))
            == (CellV::Int64(u as i64), false),
{
}

/// An absent or `null` value is a null cell in every column and never a
/// coercion failure.
pub proof fn lemma_missing_is_null(ty: AttributeType)
    ensures
        encode_spec(ty, None) == (CellV::Null, false),
        encode_spec(ty, Some(JsonView::Null)) == (CellV::Null, false),
{
}


/// A leap year of the proleptic Gregorian calendar.
pub open spec fn is_leap_year(y: int) -> bool {
    (y % 4 == 0 && y % 100 != 0) || y % 400 == 0
}

/// The number of days of month `m` of year `y`.
pub open spec fn days_in_month(y: int, m: int) -> int {
    if m == 2 {
        if is_leap_year(y) { 29 } else { 28 }
    } else if m == 4 || m == 6 || m == 9 || m == 11 {
        30
    } else {
        31
    }
}

/// The day count is a calendar: 1970-01-01 is day 0, the next day of a
/// month is one day later, and the first of the next month (or of the next
/// year after December) comes exactly as many days after the first of a
/// month as that month has.
pub proof fn lemma_civil_days_is_a_calendar(y: int, m: int, d: int)
    requires
        1 <= m <= 12,
    ensures
        civil_days(1970, 1, 1) == 0,
        civil_days(y, m, d + 1) == civil_days(y, m, d) + 1,
        m < 12 ==> civil_days(y, m + 1, 1) == civil_days(y, m, 1) + days_in_month(y, m),
        m == 12 ==> civil_days(y + 1, 1, 1) == civil_days(y, 12, 1) + 31,
{
    assert(civil_days(1970, 1, 1) == 0);
    if m == 2 {
        let a = y - 1;
        assert(y / 4 - a / 4 == if y % 4 == 0 { 1int } else { 0int }) by (nonlinear_arith)
            requires a == y - 1;
        assert(y / 100 - a / 100 == if y % 100 == 0 { 1int } else { 0int }) by (nonlinear_arith)
            requires a == y - 1;
        assert(y / 400 - a / 400 == if y % 400 == 0 { 1int } else { 0int }) by (nonlinear_arith)
            requires a == y - 1;
        assert(y % 400 == 0 ==> y % 100 == 0 && y % 4 == 0) by (nonlinear_arith);
        assert(y % 100 == 0 ==> y % 4 == 0) by (nonlinear_arith);
    }
}


/// A string column keeps every string, a boolean column every boolean, and
/// a JSON column every present value, as given; a date column stores a
/// parsed date's day count from 1970-01-01.
pub proof fn lemma_columns_keep_their_values(v: JsonView, t: Seq<char>, b: bool)
    ensures
        encode_spec(AttributeType::String, Some(JsonView::Str(t))) == (CellV::String(t), false),
        encode_spec(AttributeType::Boolean, Some(JsonView::Bool(b))) == (CellV::Boolean(b), false),
        !(v is Null) ==> encode_spec(AttributeType::Json, Some(v)) == (CellV::Json(v), false),
        parsed_date(t) is Some ==> encode_spec(AttributeType::Date, Some(JsonView::Str(t)))
            == (CellV::Date(civil_days(parsed_date(t)->Some_0.0 as int, parsed_date(t)->Some_0.1 as int,
                parsed_date(t)->Some_0.2 as int) as i32), false),
        parsed_date(t) is None ==> encode_spec(AttributeType::Date, Some(JsonView::Str(t))) == (CellV::Null, true),
{
}

} // verus!
