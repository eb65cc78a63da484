//! Error taxonomy of the document tree.
//!
//! Path resolution fails with [`IndexingError`]; mutations add the two
//! collision cases of their own and otherwise carry the resolution failure
//! through unchanged.
use vstd::prelude::*;

verus! {

/// Failure of resolving one selector segment.
#[derive(Debug)]
pub enum IndexingError {
    /// The selector tried to descend through a terminal value.
    NotIndexable,
    /// The segment does not name an entry of the container it was applied
    /// to: an absent object key, or an array index that does not parse or
    /// is out of range.
    MissingKey(String),
}

/// Failure of a mutation.
#[derive(Debug)]
pub enum MutationError {
    /// An insert or a rename would collide with an existing sibling key.
    DuplicateKey,
    /// A rename was attempted under a parent that is not an object.
    NotRenameable,
    /// The mutation path did not resolve.
    Indexing(IndexingError),
}

impl IndexingError {
    /// The failing segment, if any.
    pub open spec fn spec_missing_segment(self) -> Option<Seq<char>> {
        match self {
            IndexingError::NotIndexable => None,
            IndexingError::MissingKey(s) => Some(s@),
        }
    }

    /// A short description, in place of a `Display` implementation.
    pub fn message(&self) -> (r: String)
        ensures
            self is NotIndexable ==> r@ == "Not indexable"@,
    {
        match self {
            IndexingError::NotIndexable => "Not indexable".to_owned(),
            IndexingError::MissingKey(key) => concat_str("Missing key: ", key.as_str()),
        }
    }
}

impl MutationError {
    /// A short description, in place of a `Display` implementation.
    pub fn message(&self) -> (r: String)
        ensures
            self is DuplicateKey ==> r@ == "Duplicate key"@,
            self is NotRenameable ==> r@ == "Not renameable"@,
    {
        match self {
            MutationError::DuplicateKey => "Duplicate key".to_owned(),
            MutationError::NotRenameable => "Not renameable".to_owned(),
            MutationError::Indexing(e) => e.message(),
        }
    }
}

/// Joins a fixed prefix and a message tail.
fn concat_str(prefix: &str, tail: &str) -> (r: String)
    ensures
        r@ == prefix@ + tail@,
{
    let mut s = prefix.to_owned();
    s.append(tail);
    s
}

/// Failure of turning JSON text into a document tree.
#[derive(Debug)]
pub enum LoadError {
    /// The text is not valid JSON; carries the parser's description.
    SerdeJson(String),
    /// The text parsed, but a value in it has no representation in the
    /// tree.
    DeserializationError(DeserializationError),
    /// The document's pretty-printed size does not fit the machine word
    /// that the size caches are kept in.
    TooLarge,
}

/// Failure of converting one parsed value.
#[derive(Debug)]
pub enum DeserializationError {
    /// A number with no canonical decimal text.
    InvalidNumber(String),
}

/// Failure of writing a document tree back out as text.
///
/// The verified printer cannot fail; the type remains so that callers can
/// treat printing like the fallible collaborator it replaces.
#[derive(Debug)]
pub enum DumpError {
    Serialization(String),
}

impl LoadError {
    /// A short description, in place of a `Display` implementation.
    pub fn message(&self) -> (r: String) {
        match self {
            LoadError::SerdeJson(s) => concat_str("Deserialization error: ", s.as_str()),
            LoadError::DeserializationError(DeserializationError::InvalidNumber(s)) => concat_str(
                "Invalid number: ",
                s.as_str(),
            ),
            LoadError::TooLarge => "Document too large".to_owned(),
        }
    }
}

} // verus!
