//! One stored record: an embedding and its metadata.
//!
//! A single-precision number is held as its 32-bit pattern. The database
//! stores and compares such patterns and never computes with them.

use crate::text::opt_string_view;
use vstd::prelude::*;
use vstd::string::*;

verus! {

/// Importance of an entry that was added without metadata: the pattern of 1.0.
pub const DEFAULT_IMPORTANCE: u32 = 0x3F80_0000;

/// Timestamp of an entry that was added without metadata: unset.
pub const DEFAULT_TIMESTAMP: i64 = 0;

/// Context type of an entry that was added without metadata.
pub const DEFAULT_CONTEXT_TYPE: u8 = 0;

/// One stored record.
#[derive(Debug)]
pub struct Entry {
    /// Identifier, unique within the entry's modality.
    pub id: u64,
    /// The embedding, one bit pattern per component.
    pub embedding: Vec<u32>,
    /// Seconds since the epoch.
    pub timestamp: i64,
    /// Bit pattern of the importance weight.
    pub importance: u32,
    /// Application-defined kind; 0 is the default.
    pub context_type: u8,
    /// Where the entry came from; `None` is "unset", not "empty".
    pub source: Option<String>,
    /// The entry's text; `None` is "unset", not "empty".
    pub content: Option<String>,
    /// The partition the entry belongs to.
    pub modality: String,
}

/// What an [`Entry`] holds, as mathematical values.
pub ghost struct EntryView {
    pub id: u64,
    pub embedding: Seq<u32>,
    pub timestamp: i64,
    pub importance: u32,
    pub context_type: u8,
    pub source: Option<Seq<char>>,
    pub content: Option<Seq<char>>,
    pub modality: Seq<char>,
}

impl View for Entry {
    type V = EntryView;

    open spec fn view(&self) -> EntryView {
        EntryView {
            id: self.id,
            embedding: self.embedding@,
            timestamp: self.timestamp,
            importance: self.importance,
            context_type: self.context_type,
            source: opt_string_view(self.source),
            content: opt_string_view(self.content),
            modality: self.modality@,
        }
    }
}

/// The modality of an entry that was added without one.
pub open spec fn default_modality() -> Seq<char> {
    "text"@
}

impl EntryView {
    /// The entry that a bare `add` stores: the embedding with default
    /// metadata, in the default modality.
    pub open spec fn plain(id: u64, embedding: Seq<u32>) -> EntryView {
        EntryView {
            id,
            embedding,
            timestamp: DEFAULT_TIMESTAMP,
            importance: DEFAULT_IMPORTANCE,
            context_type: DEFAULT_CONTEXT_TYPE,
            source: None,
            content: None,
            modality: default_modality(),
        }
    }
}

impl Entry {
    /// An entry with the given embedding and default metadata.
    pub fn plain(id: u64, embedding: Vec<u32>) -> (e: Entry)
        ensures
            e@ == EntryView::plain(id, embedding@),
    {
        Entry {
            id,
            embedding,
            timestamp: DEFAULT_TIMESTAMP,
            importance: DEFAULT_IMPORTANCE,
            context_type: DEFAULT_CONTEXT_TYPE,
            source: None,
            content: None,
            modality: "text".to_owned(),
        }
    }
}

} // verus!
