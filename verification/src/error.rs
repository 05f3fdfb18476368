//! The failures that the engine and its stores report.
use vstd::prelude::*;

verus! {

/// What went wrong.
#[derive(Debug, Clone)]
pub enum ErrorKind {
    /// No entity has this id.
    NotFoundById(String),
    /// No entity has this name.
    NotFoundByName(String),
    /// No entity has this value under this field.
    NotFoundByCustom(String, String),
    /// The store does not offer the operation.
    NotImplemented,
    /// A stored value could not be read as the expected type.
    BsonConvert,
    /// A chunk index lies past the end of the store's chunks.
    IndexOutOfBound,
    /// The store failed; the text is the store's own.
    StoreBackend(String),
    /// A score lies outside the store's range.
    ScoreOutOfRange,
    /// A metric has no value on its inputs.
    UndefinedMetric,
    /// No neighbour rated the item.
    NoNeighbors,
    /// Items were to be looked up in chunks of zero items.
    ZeroChunkSize,
}

/// A lookup by id that found nothing.
#[derive(Debug, Clone)]
pub struct NotFoundById<I>(pub I);

/// A lookup by name that found nothing.
#[derive(Debug, Clone)]
pub struct NotFoundByName(pub String);

impl NotFoundByName {
    /// The same failure as an `ErrorKind`.
    pub fn into_kind(self) -> (e: ErrorKind)
        ensures
            e == ErrorKind::NotFoundByName(self.0),
    {
        ErrorKind::NotFoundByName(self.0)
    }
}

} // verus!
