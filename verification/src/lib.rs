//! Normalizes a resolved package graph into a deduplicated catalog of
//! external dependencies, one entry per package name and compatibility epoch.

pub mod text;
pub mod names;
pub mod version;
pub mod error;
pub mod epoch;
pub mod dependency;
pub mod document;
pub mod graph;
pub mod catalog;
pub mod collect;
pub mod laws;

pub use crate::collect::collect_dependencies;
pub use crate::dependency::Dependency;
pub use crate::dependency::DependencyKind;
pub use crate::dependency::DependencyKindInfo;
pub use crate::dependency::KindTable;
pub use crate::document::KindAnnotation;
pub use crate::document::MetadataDocument;
pub use crate::document::PackageRecord;
pub use crate::document::ResolutionEdge;
pub use crate::epoch::Epoch;
pub use crate::error::CollectError;
pub use crate::error::MalformedVersion;
