//! What can go wrong while a catalog is built.

use vstd::prelude::*;

verus! {

/// A version text that is not a well-formed semantic version.
#[derive(Clone, Copy, Debug, PartialEq, Eq)]
pub struct MalformedVersion;

/// Why no catalog could be built from a document.
#[derive(Clone, Debug, PartialEq, Eq)]
pub enum CollectError {
    /// An edge names a target that is not in the package list.
    UnknownPackage { package_id: String },
    /// The version of a required package is not a well-formed semantic version.
    MalformedVersion { package_id: String },
    /// Two required packages share a name and an epoch but not a version.
    ConflictingVersions { package_name: String, first: String, second: String },
}

/// The mathematical content of a `CollectError`.
pub enum ErrorModel {
    UnknownPackage { package_id: Seq<char> },
    MalformedVersion { package_id: Seq<char> },
    ConflictingVersions { package_name: Seq<char>, first: Seq<char>, second: Seq<char> },
}

impl View for CollectError {
    type V = ErrorModel;

    open spec fn view(&self) -> ErrorModel {
        match self {
            CollectError::UnknownPackage { package_id } => ErrorModel::UnknownPackage {
                package_id: package_id@,
            },
            CollectError::MalformedVersion { package_id } => ErrorModel::MalformedVersion {
                package_id: package_id@,
            },
            CollectError::ConflictingVersions {
                package_name,
                first,
                second,
            } => ErrorModel::ConflictingVersions {
                package_name: package_name@,
                first: first@,
                second: second@,
            },
        }
    }
}

} // verus!
