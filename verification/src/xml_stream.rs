//! The decisions of the streaming CityGML reader: consuming an element's
//! subtree and collecting an element's text, one event at a time.
//!
//! The caller reads each event from the document and hands it here with the
//! running state; these functions say what the event does to that state and
//! whether the element is finished.

use vstd::prelude::*;
use crate::error::{CityParquetError, Result};
use crate::text::owned;

verus! {

/// What the subtree skipper sees of one event.
#[derive(Debug, Clone, Copy, PartialEq, Eq)]
pub enum SkipEvent {
    /// An opening tag `<x>`.
    Start,
    /// A closing tag `</x>`.
    End,
    /// The end of the document.
    Eof,
    /// Anything else (text, self-closing tags, comments, ...).
    Other,
}

/// What the skipper does next.
#[derive(Debug, PartialEq, Eq)]
pub enum SkipStep {
    /// Keep reading, now nested this deep below the skipped element's parent.
    Continue(usize),
    /// The skipped element's own end tag was consumed.
    Done,
}

/// One event of skipping an element's remaining subtree, `depth` levels below
/// the element's parent (1 right after its `Start`): an opening tag nests one
/// level deeper, a closing tag one level shallower, and the closing tag that
/// returns to depth 0 finishes the element. The end of the document inside
/// the element is a `Schema` error.
pub fn skip_element_step(depth: usize, ev: SkipEvent) -> (r: Result<SkipStep>)
    requires
        depth >= 1,
        ev == SkipEvent::Start ==> depth < usize::MAX,
    ensures
        match ev {
            SkipEvent::Start => r == Ok::<SkipStep, CityParquetError>(SkipStep::Continue((depth + 1) as usize)),
            SkipEvent::End => if depth == 1 {
                r == Ok::<SkipStep, CityParquetError>(SkipStep::Done)
            } else {
                r == Ok::<SkipStep, CityParquetError>(SkipStep::Continue((depth - 1) as usize))
            },
            SkipEvent::Eof => r matches Err(CityParquetError::Schema(_)),
            SkipEvent::Other => r == Ok::<SkipStep, CityParquetError>(SkipStep::Continue(depth)),
        },
{
    match ev {
        SkipEvent::Start => Ok(SkipStep::Continue(depth + 1)),
        SkipEvent::End => {
            if depth == 1 {
                Ok(SkipStep::Done)
            } else {
                Ok(SkipStep::Continue(depth - 1))
            }
        },
        SkipEvent::Eof => Err(CityParquetError::Schema(owned("unexpected end of CityGML document inside <skip>"))),
        SkipEvent::Other => Ok(SkipStep::Continue(depth)),
    }
}

/// Opening tags minus closing tags among `evs`.
pub open spec fn nesting(evs: Seq<SkipEvent>) -> int
    decreases evs.len(),
{
    if evs.len() == 0 {
        0
    } else {
        nesting(evs.drop_last()) + match evs.last() {
            SkipEvent::Start => 1int,
            SkipEvent::End => -1int,
            _ => 0int,
        }
    }
}

/// Feeding `evs` to [`skip_element_step`] one after another, from `depth`,
/// never finishes or fails early, and leaves the skipper at `depth` plus their
/// nesting.
pub open spec fn skips_through(depth: int, evs: Seq<SkipEvent>) -> bool {
    forall|k: int| 0 <= k < evs.len() ==> {
        &&& #[trigger] evs[k] != SkipEvent::Eof
        &&& depth + nesting(evs.take(k + 1)) >= 1
    }
}

/// The skipper's depth after each event is the depth it started at plus the
/// events' nesting so far; it finishes on the first closing tag that brings
/// that sum to zero, so it consumes exactly the element's subtree.
pub proof fn lemma_skip_tracks_nesting(depth: int, evs: Seq<SkipEvent>, ev: SkipEvent)
    requires
        depth >= 1,
        skips_through(depth, evs),
    ensures
        evs.len() > 0 ==> depth + nesting(evs) >= 1,
        ev == SkipEvent::End && depth + nesting(evs) == 1 ==> depth + nesting(evs.push(ev)) == 0,
        ev != SkipEvent::Eof && depth + nesting(evs) + match ev {
            SkipEvent::Start => 1int,
            SkipEvent::End => -1int,
            _ => 0int,
        } >= 1 ==> skips_through(depth, evs.push(ev)),
{
    let e2 = evs.push(ev);
    assert(e2.drop_last() =~= evs);
    if evs.len() > 0 {
        assert(evs.take(evs.len() as int) =~= evs);
        assert(evs[evs.len() - 1] != SkipEvent::Eof);
    }
    assert forall|k: int| 0 <= k < evs.len() implies #[trigger] e2.take(k + 1) =~= evs.take(k + 1) by {}
    assert(e2.take(e2.len() as int) =~= e2);
}

/// What the text collector sees of one event.
#[derive(Debug)]
pub enum TextEvent {
    /// Escaped character data, already decoded to a string.
    Text(std::string::String),
    /// A CDATA section's content, taken verbatim.
    CData(std::string::String),
    /// A closing tag.
    End,
    /// The end of the document.
    Eof,
    /// Anything else (comments, processing instructions, ...): ignored.
    Other,
}

/// The text `quick_xml::escape::unescape` makes of raw character data
/// (`None` when it refuses the data).
pub uninterp spec fn xml_unescape(raw: Seq<char>) -> Option<Seq<char>>;

/// `quick_xml::escape::unescape`: replaces the predefined entities and
/// character references of raw character data. Text without any `&` comes
/// back unchanged; what it makes of entities is named, not stated.
#[verifier::external_body]
fn unescape_text(raw: &str) -> (r: Option<std::string::String>)
    ensures
        match r {
            Some(s) => xml_unescape(raw@) == Some(s@),
            None => xml_unescape(raw@) is None,
        },
        !raw@.contains('&') ==> r is Some && r.unwrap()@ == raw@,
{
    quick_xml::escape::unescape(raw).ok().map(|c| c.into_owned())
}

/// One event of collecting an element's text (which holds only text
/// children): text is unescaped and appended, CDATA appended verbatim, and the
/// closing tag finishes (`Ok(true)`). Undecodable text and the end of the
/// document are `Schema` errors.
pub fn read_text_step(acc: &mut std::string::String, ev: &TextEvent) -> (r: Result<bool>)
    ensures
        match ev {
            TextEvent::Text(raw) => match xml_unescape(raw@) {
                Some(u) => r == Ok::<bool, CityParquetError>(false) && final(acc)@ == old(acc)@ + u,
                None => r matches Err(CityParquetError::Schema(_)) && final(acc)@ == old(acc)@,
            },
            TextEvent::CData(c) => r == Ok::<bool, CityParquetError>(false) && final(acc)@ == old(acc)@ + c@,
            TextEvent::End => r == Ok::<bool, CityParquetError>(true) && final(acc)@ == old(acc)@,
            TextEvent::Eof => r matches Err(CityParquetError::Schema(_)) && final(acc)@ == old(acc)@,
            TextEvent::Other => r == Ok::<bool, CityParquetError>(false) && final(acc)@ == old(acc)@,
        },
{
    match ev {
        TextEvent::Text(raw) => match unescape_text(raw.as_str()) {
            Some(u) => {
                acc.push_str(u.as_str());
                Ok(false)
            },
            None => Err(CityParquetError::Schema(owned("CityGML XML parse error: invalid escape in text"))),
        },
        TextEvent::CData(c) => {
            acc.push_str(c.as_str());
            Ok(false)
        },
        TextEvent::End => Ok(true),
        TextEvent::Eof => Err(CityParquetError::Schema(owned("unexpected end of CityGML document inside <text>"))),
        TextEvent::Other => Ok(false),
    }
}

} // verus!
