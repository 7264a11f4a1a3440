//! Loading YAML text: the outside parser reports events, the loader builds documents.

use saphyr_parser::{Event as Parsed, Parser, ScalarStyle as ParsedStyle, ScanError, Tag as ParsedTag};
use std::borrow::Cow;
use vstd::prelude::*;

use crate::event::{Event, ScalarStyle, Tag};
use crate::loader::{load_events, load_from_events};
use crate::value::{Yaml, trees_of};

verus! {

#[verifier::external_type_specification]
#[verifier::external_body]
pub struct ExScanError(ScanError);

#[verifier::external_type_specification]
#[verifier::external_body]
pub struct ExScalarStyle(ParsedStyle);

#[verifier::external_type_specification]
#[verifier::external_body]
pub struct ExTag(ParsedTag);

/// The event stream of a text, or `None` where the text does not scan.
pub uninterp spec fn events_of(s: Seq<char>) -> Option<Seq<Event>>;

/// Converts saphyr_parser's `ScalarStyle` to the variant of the same name.
#[verifier::external_body]
fn style_of(s: ParsedStyle) -> ScalarStyle {
    match s {
        ParsedStyle::Plain => ScalarStyle::Plain,
        ParsedStyle::SingleQuoted => ScalarStyle::SingleQuoted,
        ParsedStyle::DoubleQuoted => ScalarStyle::DoubleQuoted,
        ParsedStyle::Literal => ScalarStyle::Literal,
        ParsedStyle::Folded => ScalarStyle::Folded,
    }
}

/// Converts saphyr_parser's `Tag` to one with the same handle and suffix.
#[verifier::external_body]
fn tag_of(t: Cow<'_, ParsedTag>) -> Tag {
    let t = t.into_owned();
    Tag { handle: t.handle, suffix: t.suffix }
}

/// Relies on saphyr_parser's `Parser` over a `&str`, used as an iterator: it yields the
/// events of the text in order up to `StreamEnd`, or a `ScanError` where the text is malformed.
/// The outcome depends on the text alone. Each event is converted variant by variant; the
/// tags of collections are not used.
#[verifier::external_body]
fn parse_events(s: &str) -> (r: Result<Vec<Event>, ScanError>)
    ensures
        match events_of(s@) {
            Some(evs) => r matches Ok(v) && v@ == evs,
            None => r is Err,
        },
{
    Parser::new_from_str(s).map(|r| r.map(|(e, _)| match e {
        Parsed::Nothing => Event::Nothing,
        Parsed::StreamStart => Event::StreamStart,
        Parsed::StreamEnd => Event::StreamEnd,
        Parsed::DocumentStart(_) => Event::DocumentStart,
        Parsed::DocumentEnd => Event::DocumentEnd,
        Parsed::Alias(a) => Event::Alias(a),
        Parsed::Scalar(v, s, a, t) => Event::Scalar(v.into_owned(), style_of(s), a, t.map(tag_of)),
        Parsed::SequenceStart(a, _) => Event::SequenceStart(a),
        Parsed::SequenceEnd => Event::SequenceEnd,
        Parsed::MappingStart(a, _) => Event::MappingStart(a),
        Parsed::MappingEnd => Event::MappingEnd,
    })).collect()
}

/// Loads every document of `source`. A scan error anywhere fails the whole load; otherwise
/// the result holds one node per document, in order.
pub fn load_from_str(source: &str) -> (r: Result<Vec<Yaml>, ScanError>)
    requires
        events_of(source@) is Some ==> load_events(events_of(source@)->0) is Some,
    ensures
        match events_of(source@) {
            Some(evs) => r matches Ok(d) && load_events(evs) == Some(trees_of(d@)),
            None => r is Err,
        },
{
    match parse_events(source) {
        Err(e) => Err(e),
        Ok(evs) => match load_from_events(&evs) {
            Some(d) => Ok(d),
            None => {
                // cannot happen: `requires` makes the stream well formed
                assert(false);
                Ok(Vec::new())
            },
        },
    }
}

/// Loads every document of `source` as `load_from_str` does, after checking that the parser's
/// event stream is well formed; `Ok(None)` where it is not.
pub fn load_from_str_checked(source: &str) -> (r: Result<Option<Vec<Yaml>>, ScanError>)
    ensures
        match events_of(source@) {
            Some(evs) => r matches Ok(o) && match o {
                Some(d) => load_events(evs) == Some(trees_of(d@)),
                None => load_events(evs) is None,
            },
            None => r is Err,
        },
{
    match parse_events(source) {
        Err(e) => Err(e),
        Ok(evs) => match load_from_events(&evs) {
            Some(_) => match load_from_str(source) {
                Ok(d) => Ok(Some(d)),
                Err(e) => Err(e),
            },
            None => Ok(None),
        },
    }
}

} // verus!
