//! The engine's error taxonomy. Every operation returns one of these
//! tagged errors synchronously; a failed operation leaves the store in its
//! prior state.

use vstd::prelude::*;
use vstd::string::StringExecFns;

verus! {

/// Why an engine operation failed.
#[derive(Clone, Debug)]
pub enum EngineError {
    /// No item with this id exists in the store.
    NotFound(u64),
    /// The document names no entry for its declared root.
    RootMissing,
    /// A rename to the empty name.
    EmptyName,
    /// A rename to the item's current name.
    UnchangedName,
    /// A rename of a composite item onto a name another item owns.
    DuplicateName,
    /// An attempt to delete or merge away the root item.
    RootImmutable,
    /// The operation needs a composite item but found a leaf.
    NotComposite,
    /// The named parent's child list does not contain the item.
    ChildNotFound,
    /// Deleting a shared item needs the parent to detach it from.
    ParentRequired,
    /// A leaf name required by the graph is absent from the data table.
    MissingData(String),
    /// A composite item still has the unset reduction at evaluation time.
    UnsetAlgorithm(u64),
    /// The item's value has not been computed yet.
    ValueNotComputed(u64),
    /// The walk exceeded its iteration cap: the graph is corrupt (cyclic).
    Corrupt,
    /// The user declined the confirmation prompt.
    Cancelled,
    /// A machine limit was hit: a counter or value left its range.
    Overflow,
}

impl EngineError {
    /// A human-readable description of the failure.
    pub fn message(&self) -> String {
        match self {
            EngineError::NotFound(id) => {
                let mut s = "item not found: ".to_owned();
                s.append(crate::decimal::u64_to_string(*id).as_str());
                s
            },
            EngineError::RootMissing => "document has no entry for its root name".to_owned(),
            EngineError::EmptyName => "rename failed: new name is empty".to_owned(),
            EngineError::UnchangedName => "rename failed: new name equals the old name".to_owned(),
            EngineError::DuplicateName => "rename failed: name already exists".to_owned(),
            EngineError::RootImmutable => "the root item cannot be removed".to_owned(),
            EngineError::NotComposite => "the item has no child list".to_owned(),
            EngineError::ChildNotFound => "the parent does not list this child".to_owned(),
            EngineError::ParentRequired => "a shared item needs an explicit parent to detach from".to_owned(),
            EngineError::MissingData(name) => {
                let mut s = "data table is missing a value for: ".to_owned();
                s.append(name.as_str());
                s
            },
            EngineError::UnsetAlgorithm(id) => {
                let mut s = "no reduction chosen for item ".to_owned();
                s.append(crate::decimal::u64_to_string(*id).as_str());
                s
            },
            EngineError::ValueNotComputed(id) => {
                let mut s = "value not yet computed for item ".to_owned();
                s.append(crate::decimal::u64_to_string(*id).as_str());
                s
            },
            EngineError::Corrupt => "walk exceeded its iteration cap; the graph is corrupt".to_owned(),
            EngineError::Cancelled => "cancelled by the user".to_owned(),
            EngineError::Overflow => "a machine limit was exceeded".to_owned(),
        }
    }
}

} // verus!
