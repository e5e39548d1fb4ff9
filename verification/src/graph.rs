//! Resolved graphs given node by node.
//!
//! A package manager may report the resolved graph as one node per package,
//! with the features resolved for that package and the packages it requires.
//! The edges of the graph are then the requirements of all nodes, in order,
//! and each edge activates on its target the features resolved for the
//! target's node.

use vstd::prelude::*;
use crate::dependency::DependencyKind;
use crate::document::EdgeModel;
use crate::document::KindAnnotation;
use crate::document::MetadataDocument;
use crate::document::PackageRecord;
use crate::document::ResolutionEdge;
use crate::document::edges_model;
use crate::document::kinds_model;
use crate::document::packages_model;
use crate::names::clone_names;
use crate::text::name_equal;
use crate::text::names_of;

verus! {

/// One requirement of a node: a required package and the build phases in
/// which it is needed.
#[derive(Clone, Debug, PartialEq, Eq)]
pub struct Requirement {
    /// The identifier of the required package.
    pub target: String,
    pub kinds: Vec<KindAnnotation>,
}

/// One node of a resolved graph.
#[derive(Clone, Debug, PartialEq, Eq)]
pub struct ResolutionNode {
    /// The identifier of the node's package.
    pub id: String,
    /// The names of the features resolved for the package.
    pub features: Vec<String>,
    pub requirements: Vec<Requirement>,
}

/// The mathematical content of a `Requirement`.
pub struct RequirementModel {
    pub target: Seq<char>,
    pub kinds: Seq<DependencyKind>,
}

/// The mathematical content of a `ResolutionNode`.
pub struct NodeModel {
    pub id: Seq<char>,
    pub features: Seq<Seq<char>>,
    pub requirements: Seq<RequirementModel>,
}

impl View for Requirement {
    type V = RequirementModel;

    open spec fn view(&self) -> RequirementModel {
        RequirementModel { target: self.target@, kinds: kinds_model(self.kinds@) }
    }
}

impl View for ResolutionNode {
    type V = NodeModel;

    open spec fn view(&self) -> NodeModel {
        NodeModel {
            id: self.id@,
            features: names_of(self.features@),
            requirements: Seq::new(self.requirements@.len(), |j: int| self.requirements@[j]@),
        }
    }
}

/// The models of a vector of nodes.
pub open spec fn nodes_model(v: Seq<ResolutionNode>) -> Seq<NodeModel> {
    Seq::new(v.len(), |i: int| v[i]@)
}

/// The first node at or after index `i` that has the identifier `id`.
pub open spec fn node_index(nodes: Seq<NodeModel>, id: Seq<char>, i: int) -> Option<int>
    decreases nodes.len() - i,
{
    if 0 <= i < nodes.len() {
        if nodes[i].id == id {
            Some(i)
        } else {
            node_index(nodes, id, i + 1)
        }
    } else {
        None
    }
}

/// The features resolved for a package: those of the first node with its
/// identifier, and none when it has no node.
pub open spec fn resolved_features(nodes: Seq<NodeModel>, id: Seq<char>) -> Seq<Seq<char>> {
    match node_index(nodes, id, 0) {
        Some(k) => nodes[k].features,
        None => Seq::empty(),
    }
}

/// The edge that requirement `j` of node `i` stands for.
pub open spec fn edge_of(nodes: Seq<NodeModel>, i: int, j: int) -> EdgeModel {
    let requirement = nodes[i].requirements[j];
    EdgeModel {
        source: nodes[i].id,
        target: requirement.target,
        kinds: requirement.kinds,
        features: resolved_features(nodes, requirement.target),
    }
}

/// The edges of the first `m` requirements of node `i`.
pub open spec fn node_edges(nodes: Seq<NodeModel>, i: int, m: int) -> Seq<EdgeModel> {
    Seq::new(m as nat, |j: int| edge_of(nodes, i, j))
}

/// The edges of the first `n` nodes: node after node, each with all its
/// requirements in order.
pub open spec fn graph_edges(nodes: Seq<NodeModel>, n: int) -> Seq<EdgeModel>
    decreases n,
{
    if n <= 0 {
        Seq::empty()
    } else {
        graph_edges(nodes, n - 1) + node_edges(
            nodes,
            n - 1,
            nodes[n - 1].requirements.len() as int,
        )
    }
}

/// Copies a list of annotations.
pub fn clone_kinds(kinds: &Vec<KindAnnotation>) -> (r: Vec<KindAnnotation>)
    ensures
        r@.len() == kinds@.len(),
        forall|i: int|
            0 <= i < kinds@.len() ==> (#[trigger] r@[i]).kind == kinds@[i].kind && match (
                r@[i].platform,
                kinds@[i].platform,
            ) {
                (Some(a), Some(b)) => a@ == b@,
                (None, None) => true,
                _ => false,
            },
        kinds_model(r@) == kinds_model(kinds@),
{
    let mut out: Vec<KindAnnotation> = Vec::new();
    let mut i: usize = 0;
    while i < kinds.len()
        invariant
            i <= kinds@.len(),
            out@.len() == i,
            forall|j: int|
                0 <= j < i ==> (#[trigger] out@[j]).kind == kinds@[j].kind && match (
                    out@[j].platform,
                    kinds@[j].platform,
                ) {
                    (Some(a), Some(b)) => a@ == b@,
                    (None, None) => true,
                    _ => false,
                },
        decreases kinds@.len() - i,
    {
        let platform = match &kinds[i].platform {
            Some(p) => Some(p.clone()),
            None => None,
        };
        out.push(KindAnnotation { kind: kinds[i].kind, platform });
        i += 1;
    }
    assert(kinds_model(out@) =~= kinds_model(kinds@));
    out
}

/// The features resolved for the package `id`: those of the first node with
/// that identifier, and none when there is no such node.
pub fn features_for(nodes: &Vec<ResolutionNode>, id: &str) -> (r: Vec<String>)
    ensures
        names_of(r@) == resolved_features(nodes_model(nodes@), id@),
{
    let mut i: usize = 0;
    while i < nodes.len()
        invariant
            i <= nodes@.len(),
            node_index(nodes_model(nodes@), id@, 0) == node_index(
                nodes_model(nodes@),
                id@,
                i as int,
            ),
        decreases nodes@.len() - i,
    {
        assert(nodes_model(nodes@)[i as int] == nodes@[i as int]@);
        if name_equal(nodes[i].id.as_str(), id) {
            return clone_names(&nodes[i].features);
        }
        i += 1;
    }
    let none: Vec<String> = Vec::new();
    assert(names_of(none@) =~= Seq::<Seq<char>>::empty());
    none
}

/// Lists the edges of a graph given node by node.
pub fn edges_of_nodes(nodes: &Vec<ResolutionNode>) -> (r: Vec<ResolutionEdge>)
    ensures
        edges_model(r@) == graph_edges(nodes_model(nodes@), nodes@.len() as int),
{
    let ghost model = nodes_model(nodes@);
    let mut out: Vec<ResolutionEdge> = Vec::new();
    let mut i: usize = 0;
    assert(edges_model(out@) =~= graph_edges(model, 0));
    while i < nodes.len()
        invariant
            i <= nodes@.len(),
            model == nodes_model(nodes@),
            edges_model(out@) == graph_edges(model, i as int),
        decreases nodes@.len() - i,
    {
        let node = &nodes[i];
        assert(model[i as int] == node@);
        let ghost done = edges_model(out@);
        let mut j: usize = 0;
        assert(edges_model(out@) =~= done + node_edges(model, i as int, 0));
        while j < node.requirements.len()
            invariant
                j <= node.requirements@.len(),
                i < nodes@.len(),
                model == nodes_model(nodes@),
                model[i as int] == node@,
                edges_model(out@) == done + node_edges(model, i as int, j as int),
            decreases node.requirements@.len() - j,
        {
            let requirement = &node.requirements[j];
            assert(node@.requirements[j as int] == requirement@);
            let ghost before = edges_model(out@);
            let edge = ResolutionEdge {
                source: node.id.clone(),
                target: requirement.target.clone(),
                kinds: clone_kinds(&requirement.kinds),
                features: features_for(nodes, requirement.target.as_str()),
            };
            assert(edge@ == edge_of(model, i as int, j as int));
            out.push(edge);
            assert(edges_model(out@) =~= before.push(edge_of(model, i as int, j as int)));
            assert(node_edges(model, i as int, j + 1) =~= node_edges(model, i as int, j as int).push(
                edge_of(model, i as int, j as int),
            ));
            assert(edges_model(out@) =~= done + node_edges(model, i as int, j + 1));
            j += 1;
        }
        i += 1;
    }
    out
}

impl MetadataDocument {
    /// Makes a document from a package list and a graph given node by node.
    pub fn from_graph(packages: Vec<PackageRecord>, nodes: &Vec<ResolutionNode>) -> (r:
        MetadataDocument)
        ensures
            r@.packages == packages_model(packages@),
            r@.edges == graph_edges(nodes_model(nodes@), nodes@.len() as int),
    {
        MetadataDocument { packages, edges: edges_of_nodes(nodes) }
    }
}

} // verus!
