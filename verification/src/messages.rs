//! The plain value types of the command surface: request argument bundles,
//! structured responses, and the serializable result wrapper.

use crate::algorithm::Algorithm;
use vstd::prelude::*;

verus! {

/// A result wrapper mirrored by the transport layer.
#[derive(Clone, Debug)]
pub enum MyResult<T, E> {
    Success(T),
    Failure(E),
}

/// Arguments for loading a document from a path.
#[derive(Clone, Debug)]
#[allow(non_snake_case)]
pub struct PrepareModelArgs {
    pub filePath: String,
}

/// Arguments for a log line.
#[derive(Clone, Debug)]
pub struct LogArgs {
    pub message: String,
}

/// Arguments carrying a single item id.
#[derive(Clone, Debug)]
pub struct IdArgs {
    pub id: u64,
}

/// Arguments for a delete: the item and, when the item is shared, the
/// parent whose child list loses it.
#[derive(Clone, Debug)]
pub struct DeleteArgs {
    pub id: u64,
    pub parent: Option<u64>,
}

/// Arguments for a rename.
#[derive(Clone, Debug)]
#[allow(non_snake_case)]
pub struct RenameArgs {
    pub id: u64,
    pub newName: String,
}

/// Outcome of a rename: either the item was renamed in place, or it was
/// merged into the existing owner of the name and removed.
#[derive(Clone, Debug)]
pub enum RenameResponse {
    RemoveSelfUpdateRelated { id_to_remove: u64, ids_to_update: Vec<u64> },
    RenameSelf(String),
}

/// Outcome of a delete: the id removed from the store (if any) and the
/// items whose state changed.
#[derive(Clone, Debug)]
pub struct DeleteResponse {
    pub id_to_remove: Option<u64>,
    pub ids_to_update: Vec<u64>,
}

/// Arguments for overwriting a composite item's reduction.
#[derive(Clone, Debug)]
#[allow(non_snake_case)]
pub struct UpdateAlgorithmArgs {
    pub id: u64,
    pub newAlgorithm: Algorithm,
}

/// Arguments for querying computed values of a set of items.
#[derive(Clone, Debug)]
pub struct QueryValuesArgs {
    pub ids: Vec<u64>,
}

/// Computed values keyed by the decimal rendering of each item id.
#[derive(Clone, Debug)]
pub struct QueryValuesResponse {
    pub values: Vec<(String, i64)>,
}

} // verus!
