use vstd::prelude::*;

verus! {

/// Errors reported to the host. All are recoverable: the engine stays
/// usable after returning any of them.
#[derive(Clone, Copy, Debug, PartialEq, Eq, Structural)]
pub enum SearchError {
    /// A field with the same name was already registered in the schema.
    DuplicateFieldError,
    /// The loaded index was built against a different schema.
    SchemaMismatchError,
    /// The serialized index bytes are structurally inconsistent.
    CorruptIndexError,
    /// A query was issued before any index was successfully loaded.
    NoIndexLoadedError,
    /// The query exceeds the configured bounds (too many terms).
    InvalidQueryError,
}

/// Most query terms a single query may contain, bounding worst-case latency.
pub const MAX_QUERY_TERMS: usize = 16;

/// Most fields a schema may declare.
pub const MAX_FIELDS: usize = 64;

/// Term-frequency contribution cap: occurrences beyond this add nothing.
pub const TF_CAP: u64 = 255;

/// Longest term (in bytes) considered for fuzzy matching.
pub const MAX_FUZZY_LEN: usize = 256;

/// One posting: the documents slot `doc` (an index into the document
/// table) contains the owning term in field `field` at the given token
/// positions. The term frequency is the number of positions.
pub struct Posting {
    pub field: u32,
    pub doc: u32,
    pub positions: Vec<u32>,
}

/// A term-dictionary entry: a normalized term and its postings.
pub struct TermEntry {
    pub term: Vec<u8>,
    pub postings: Vec<Posting>,
}

/// Per-document metadata carried by the index for the host's benefit.
pub struct DocMeta {
    pub id: u32,
    pub boost: u32,
    pub title: Vec<u8>,
}

/// Positions at which a query term matched inside one field of a document.
pub struct MatchSpan {
    pub field: u32,
    pub positions: Vec<u32>,
}

/// One ranked query result.
pub struct ResultEntry {
    pub doc_id: u32,
    pub score: u64,
    pub spans: Vec<MatchSpan>,
}

/// A raw document handed to the index builder: one text per schema field,
/// in schema order.
pub struct DocumentInput {
    pub id: u32,
    pub boost: u32,
    pub title: Vec<u8>,
    pub fields: Vec<Vec<u8>>,
}

} // verus!
