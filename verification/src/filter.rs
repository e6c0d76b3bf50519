//! The search-time predicate over an entry's metadata.

use crate::entry::{Entry, EntryView};
use crate::text::{opt_str_view, str_eq};
use vstd::prelude::*;
use vstd::string::*;

verus! {

/// The context type that callers across a fixed-width boundary pass for "no
/// type filter". It is never matched as a literal type.
pub const NO_TYPE_FILTER: u8 = 255;

/// The type condition: absent, or the sentinel, admits every entry; any other
/// value admits the entries of exactly that context type.
pub open spec fn type_passes(context_type: u8, type_filter: Option<u8>) -> bool {
    match type_filter {
        None => true,
        Some(t) => t == NO_TYPE_FILTER || context_type == t,
    }
}

/// The source condition: absent admits every entry; a present filter, the
/// empty string included, admits the entries whose source is set and equal to
/// it.
pub open spec fn source_passes(source: Option<Seq<char>>, source_filter: Option<Seq<char>>) -> bool {
    match source_filter {
        None => true,
        Some(f) => source == Some(f),
    }
}

/// An entry is a candidate of a search if it is in the searched modality and
/// meets every filter that was supplied.
pub open spec fn matches_spec(
    entry: EntryView,
    type_filter: Option<u8>,
    source_filter: Option<Seq<char>>,
    modality_filter: Seq<char>,
) -> bool {
    &&& entry.modality == modality_filter
    &&& type_passes(entry.context_type, type_filter)
    &&& source_passes(entry.source, source_filter)
}

/// The type filter that a raw boundary value stands for.
pub fn type_filter_from_raw(raw: u8) -> (r: Option<u8>)
    ensures
        r == (if raw == NO_TYPE_FILTER {
            None
        } else {
            Some(raw)
        }),
        forall|c: u8| type_passes(c, r) == type_passes(c, Some(raw)),
{
    if raw == NO_TYPE_FILTER {
        None
    } else {
        Some(raw)
    }
}

/// Whether `entry` is a candidate of a search with these filters.
pub fn matches(
    entry: &Entry,
    type_filter: Option<u8>,
    source_filter: Option<&str>,
    modality_filter: &str,
) -> (r: bool)
    ensures
        r == matches_spec(entry@, type_filter, opt_str_view(source_filter), modality_filter@),
{
    if !str_eq(entry.modality.as_str(), modality_filter) {
        return false;
    }
    let type_ok: bool = match type_filter {
        None => true,
        Some(t) => t == NO_TYPE_FILTER || entry.context_type == t,
    };
    if !type_ok {
        return false;
    }
    match source_filter {
        None => true,
        Some(f) => match &entry.source {
            Some(s) => str_eq(s.as_str(), f),
            None => false,
        },
    }
}

} // verus!
