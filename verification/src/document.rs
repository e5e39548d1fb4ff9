//! The input: a package list and the edges of a resolved dependency graph.

use vstd::prelude::*;
use crate::dependency::DependencyKind;
use crate::text::name_equal;
use crate::text::names_of;

verus! {

/// One package of the document.
#[derive(Clone, Debug, PartialEq, Eq)]
pub struct PackageRecord {
    /// Identifies the package within the document.
    pub id: String,
    pub name: String,
    /// The package's semantic version, as text.
    pub version: String,
    /// The names of the features that the package declares.
    pub features: Vec<String>,
}

/// Says in which build phase an edge is needed, and on which platform if it
/// is limited to one.
#[derive(Clone, Debug, PartialEq, Eq)]
pub struct KindAnnotation {
    pub kind: DependencyKind,
    pub platform: Option<String>,
}

/// One edge of the resolved graph: `source` requires `target`.
#[derive(Clone, Debug, PartialEq, Eq)]
pub struct ResolutionEdge {
    /// The identifier of the requesting package.
    pub source: String,
    /// The identifier of the required package.
    pub target: String,
    pub kinds: Vec<KindAnnotation>,
    /// The names of the features that this edge activates on the target.
    pub features: Vec<String>,
}

/// A metadata document.
#[derive(Clone, Debug, PartialEq, Eq)]
pub struct MetadataDocument {
    pub packages: Vec<PackageRecord>,
    pub edges: Vec<ResolutionEdge>,
}

/// The mathematical content of a `PackageRecord`.
pub struct PackageModel {
    pub id: Seq<char>,
    pub name: Seq<char>,
    pub version: Seq<char>,
    pub features: Seq<Seq<char>>,
}

/// The mathematical content of a `ResolutionEdge`: the platforms are left
/// out, since nothing depends on them.
pub struct EdgeModel {
    pub source: Seq<char>,
    pub target: Seq<char>,
    pub kinds: Seq<DependencyKind>,
    pub features: Seq<Seq<char>>,
}

/// The mathematical content of a `MetadataDocument`.
pub struct DocumentModel {
    pub packages: Seq<PackageModel>,
    pub edges: Seq<EdgeModel>,
}

impl View for PackageRecord {
    type V = PackageModel;

    open spec fn view(&self) -> PackageModel {
        PackageModel {
            id: self.id@,
            name: self.name@,
            version: self.version@,
            features: names_of(self.features@),
        }
    }
}

impl View for ResolutionEdge {
    type V = EdgeModel;

    open spec fn view(&self) -> EdgeModel {
        EdgeModel {
            source: self.source@,
            target: self.target@,
            kinds: kinds_model(self.kinds@),
            features: names_of(self.features@),
        }
    }
}

/// The models of a vector of packages.
pub open spec fn packages_model(v: Seq<PackageRecord>) -> Seq<PackageModel> {
    Seq::new(v.len(), |i: int| v[i]@)
}

/// The models of a vector of edges.
pub open spec fn edges_model(v: Seq<ResolutionEdge>) -> Seq<EdgeModel> {
    Seq::new(v.len(), |i: int| v[i]@)
}

/// The build phases that a vector of annotations names.
pub open spec fn kinds_model(v: Seq<KindAnnotation>) -> Seq<DependencyKind> {
    Seq::new(v.len(), |i: int| v[i].kind)
}

impl View for MetadataDocument {
    type V = DocumentModel;

    open spec fn view(&self) -> DocumentModel {
        DocumentModel { packages: packages_model(self.packages@), edges: edges_model(self.edges@) }
    }
}

/// The first package at or after index `i` that has the identifier `id`.
pub open spec fn lookup(packages: Seq<PackageModel>, id: Seq<char>, i: int) -> Option<int>
    decreases packages.len() - i,
{
    if 0 <= i < packages.len() {
        if packages[i].id == id {
            Some(i)
        } else {
            lookup(packages, id, i + 1)
        }
    } else {
        None
    }
}

impl DocumentModel {
    /// The package that an identifier stands for: the first one in the list
    /// that has it.
    pub open spec fn package(self, id: Seq<char>) -> Option<PackageModel> {
        match lookup(self.packages, id, 0) {
            Some(i) => Some(self.packages[i]),
            None => None,
        }
    }
}

impl ResolutionEdge {
    /// Says whether the edge is needed in the build phase `kind`.
    pub fn has_kind(&self, kind: DependencyKind) -> (r: bool)
        ensures
            r == self@.kinds.contains(kind),
    {
        let mut i: usize = 0;
        while i < self.kinds.len()
            invariant
                i <= self.kinds@.len(),
                forall|j: int| 0 <= j < i ==> self@.kinds[j] != kind,
            decreases self.kinds@.len() - i,
        {
            if self.kinds[i].kind == kind {
                assert(self@.kinds[i as int] == kind);
                return true;
            }
            i += 1;
        }
        false
    }
}

impl MetadataDocument {
    /// Finds the package that an identifier stands for: the first one in the
    /// list that has it.
    pub fn find_package(&self, id: &str) -> (r: Option<&PackageRecord>)
        ensures
            match r {
                Some(p) => self@.package(id@) == Some(p@),
                None => self@.package(id@) is None,
            },
    {
        let mut i: usize = 0;
        while i < self.packages.len()
            invariant
                i <= self.packages@.len(),
                lookup(self@.packages, id@, 0) == lookup(self@.packages, id@, i as int),
            decreases self.packages@.len() - i,
        {
            assert(self@.packages[i as int] == self.packages@[i as int]@);
            if name_equal(self.packages[i].id.as_str(), id) {
                return Some(&self.packages[i]);
            }
            i += 1;
        }
        None
    }
}

} // verus!
