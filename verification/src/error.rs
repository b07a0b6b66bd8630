//! The errors that domain operations report.

use crate::ids::{ulid_text, BucketId, CardId};
use vstd::prelude::*;
use vstd::string::*;

verus! {

/// Errors that can occur during domain operations.
#[derive(Debug, Clone, PartialEq, Eq)]
pub enum DomainError {
    /// A card with the specified ID does not exist in the registry.
    CardNotFound(CardId),
    /// A card or note page title was empty or contained only whitespace.
    EmptyTitle,
    /// A card with children was to be deleted under the `Reject` strategy.
    CardHasChildren,
    /// A move operation would make a card its own ancestor.
    CycleDetected,
    /// An operation that violates the domain's rules, or a corrupt state.
    InvalidOperation(String),
    /// Persisted data that this version cannot read.
    IncompatibleLegacyData(String),
    /// A card's board already has a bucket of that name.
    DuplicateBucketName(String),
    /// A card's board has no bucket with the specified ID.
    BucketNotFound(BucketId),
    /// A bucket ID occurs twice in a reorder list.
    DuplicateBucketId(BucketId),
}

/// The user-facing text of an error.
pub open spec fn error_text(e: DomainError) -> Seq<char> {
    match e {
        DomainError::CardNotFound(id) => "Card not found: "@ + ulid_text(id.0),
        DomainError::EmptyTitle => "Card title cannot be empty or blank"@,
        DomainError::CardHasChildren =>
            "Cannot delete a card that still has children; choose a DeleteStrategy"@,
        DomainError::CycleDetected => "Reparenting would create a cycle in the card tree"@,
        DomainError::InvalidOperation(m) => "Invalid operation: "@ + m@,
        DomainError::IncompatibleLegacyData(m) => "Incompatible legacy data: "@ + m@,
        DomainError::DuplicateBucketName(n) => "A bucket named "@ + n@ + " already exists"@,
        DomainError::BucketNotFound(id) => "Bucket not found: "@ + ulid_text(id.0),
        DomainError::DuplicateBucketId(id) => "Duplicate bucket ID in reorder list: "@ + ulid_text(
            id.0,
        ),
    }
}

impl DomainError {
    /// The user-facing text of the error (what `to_string` gives for it).
    pub fn message(&self) -> (r: String)
        ensures
            r@ == error_text(*self),
    {
        match self {
            DomainError::CardNotFound(id) => {
                let mut s = String::from_str("Card not found: ");
                let t = id.to_text();
                s.append(t.as_str());
                s
            },
            DomainError::EmptyTitle => String::from_str("Card title cannot be empty or blank"),
            DomainError::CardHasChildren => String::from_str(
                "Cannot delete a card that still has children; choose a DeleteStrategy",
            ),
            DomainError::CycleDetected => String::from_str(
                "Reparenting would create a cycle in the card tree",
            ),
            DomainError::InvalidOperation(m) => {
                let mut s = String::from_str("Invalid operation: ");
                s.append(m.as_str());
                s
            },
            DomainError::IncompatibleLegacyData(m) => {
                let mut s = String::from_str("Incompatible legacy data: ");
                s.append(m.as_str());
                s
            },
            DomainError::DuplicateBucketName(n) => {
                let mut s = String::from_str("A bucket named ");
                s.append(n.as_str());
                s.append(" already exists");
                s
            },
            DomainError::BucketNotFound(id) => {
                let mut s = String::from_str("Bucket not found: ");
                let t = id.to_text();
                s.append(t.as_str());
                s
            },
            DomainError::DuplicateBucketId(id) => {
                let mut s = String::from_str("Duplicate bucket ID in reorder list: ");
                let t = id.to_text();
                s.append(t.as_str());
                s
            },
        }
    }
}

} // verus!
