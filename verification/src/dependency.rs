//! The output: one `Dependency` per package name and epoch.

use vstd::prelude::*;
use crate::catalog::absorbed;
use crate::document::ResolutionEdge;
use crate::epoch::Epoch;
use crate::epoch::EpochModel;
use crate::names::clone_names;
use crate::names::merge_names;
use crate::text::names_of;
use crate::text::sorted_names;

verus! {

/// The build phase in which a dependency is needed.
#[derive(Clone, Copy, Debug, PartialEq, Eq, Structural, PartialOrd, Ord, Hash)]
pub enum DependencyKind {
    /// Needed to build the requesting package.
    Normal,
    /// Needed to build and run its build script.
    Build,
    /// Needed to build its tests and examples.
    Development,
}

/// What is known of a dependency for one build phase.
#[derive(Clone, Debug, PartialEq, Eq)]
pub struct DependencyKindInfo {
    /// The features activated by any edge of that phase, sorted by name and
    /// without repeats.
    pub features: Vec<String>,
}

/// A mapping from build phases to what is known of the dependency there.
/// A phase in which the dependency is not needed has no entry.
#[derive(Debug, PartialEq, Eq)]
pub struct KindTable {
    normal: Option<DependencyKindInfo>,
    build: Option<DependencyKindInfo>,
    development: Option<DependencyKindInfo>,
}

/// One entry of the catalog.
#[derive(Clone, Debug, PartialEq, Eq)]
pub struct Dependency {
    pub package_name: String,
    pub epoch: Epoch,
    /// The package's version, as text.
    pub version: String,
    /// The names of the features that the package declares.
    pub features: Vec<String>,
    pub dependency_kinds: KindTable,
}

/// The pair that identifies a catalog entry.
pub struct BucketKey {
    pub name: Seq<char>,
    pub epoch: EpochModel,
}

/// The mathematical content of a `Dependency`.
pub struct DependencyModel {
    pub package_name: Seq<char>,
    pub epoch: EpochModel,
    pub version: Seq<char>,
    pub features: Seq<Seq<char>>,
    /// For each build phase in which the dependency is needed, the features
    /// activated there.
    pub kinds: Map<DependencyKind, Seq<Seq<char>>>,
}

impl DependencyModel {
    /// The bucket that the entry stands for.
    pub open spec fn key(self) -> BucketKey {
        BucketKey { name: self.package_name, epoch: self.epoch }
    }
}

impl View for KindTable {
    type V = Map<DependencyKind, Seq<Seq<char>>>;

    closed spec fn view(&self) -> Map<DependencyKind, Seq<Seq<char>>> {
        Map::new(|k: DependencyKind| self.slot(k) is Some, |k: DependencyKind| self.slot(k)->0@)
    }
}

impl View for Dependency {
    type V = DependencyModel;

    open spec fn view(&self) -> DependencyModel {
        DependencyModel {
            package_name: self.package_name@,
            epoch: self.epoch@,
            version: self.version@,
            features: names_of(self.features@),
            kinds: self.dependency_kinds@,
        }
    }
}

impl View for DependencyKindInfo {
    type V = Seq<Seq<char>>;

    open spec fn view(&self) -> Seq<Seq<char>> {
        names_of(self.features@)
    }
}

/// Adds `features` to the list of a phase, or starts the list if the phase
/// had none.
fn grow(slot: Option<DependencyKindInfo>, features: &Vec<String>) -> (r: DependencyKindInfo)
    requires
        slot is Some ==> sorted_names(slot->0@),
    ensures
        sorted_names(r@),
        forall|x: Seq<char>| #[trigger]
            r@.contains(x) <==> ((slot is Some && slot->0@.contains(x)) || names_of(
                features@,
            ).contains(x)),
{
    let mut info = match slot {
        Some(info) => info,
        None => DependencyKindInfo { features: Vec::new() },
    };
    merge_names(&mut info.features, features);
    info
}

/// Copies the entry of a phase.
fn clone_slot(slot: &Option<DependencyKindInfo>) -> (r: Option<DependencyKindInfo>)
    ensures
        r is Some == slot is Some,
        slot is Some ==> r->0@ == slot->0@,
{
    match slot {
        Some(info) => Some(DependencyKindInfo { features: clone_names(&info.features) }),
        None => None,
    }
}

impl Clone for KindTable {
    fn clone(&self) -> (r: Self)
        ensures
            r@ == self@,
    {
        proof {
            use_type_invariant(self);
        }
        let r = KindTable {
            normal: clone_slot(&self.normal),
            build: clone_slot(&self.build),
            development: clone_slot(&self.development),
        };
        assert(r@ =~= self@);
        r
    }
}

impl KindTable {
    /// The entry of one build phase.
    pub closed spec fn slot(&self, kind: DependencyKind) -> Option<DependencyKindInfo> {
        match kind {
            DependencyKind::Normal => self.normal,
            DependencyKind::Build => self.build,
            DependencyKind::Development => self.development,
        }
    }

    /// Every feature list in the table is sorted and without repeats. This
    /// holds of every table.
    pub open spec fn well_formed(&self) -> bool {
        forall|k: DependencyKind| self@.contains_key(k) ==> sorted_names(#[trigger] self@[k])
    }

    #[verifier::type_invariant]
    spec fn sorted_lists(&self) -> bool {
        &&& self.normal is Some ==> sorted_names(self.normal->0@)
        &&& self.build is Some ==> sorted_names(self.build->0@)
        &&& self.development is Some ==> sorted_names(self.development->0@)
    }

    /// A table without entries.
    pub fn new() -> (r: KindTable)
        ensures
            r@ == Map::<DependencyKind, Seq<Seq<char>>>::empty(),
            r.well_formed(),
    {
        let r = KindTable { normal: None, build: None, development: None };
        assert(r@ =~= Map::<DependencyKind, Seq<Seq<char>>>::empty());
        r
    }

    /// The entry of a build phase, if the dependency is needed there.
    pub fn get(&self, kind: &DependencyKind) -> (r: Option<&DependencyKindInfo>)
        ensures
            match r {
                Some(info) => self@.contains_key(*kind) && self@[*kind] == info@ && sorted_names(
                    info@,
                ),
                None => !self@.contains_key(*kind),
            },
            self.well_formed(),
    {
        proof {
            use_type_invariant(self);
        }
        match kind {
            DependencyKind::Normal => self.normal.as_ref(),
            DependencyKind::Build => self.build.as_ref(),
            DependencyKind::Development => self.development.as_ref(),
        }
    }

    /// Says whether the dependency is needed in a build phase.
    pub fn contains_key(&self, kind: &DependencyKind) -> (r: bool)
        ensures
            r == self@.contains_key(*kind),
    {
        self.get(kind).is_some()
    }

    /// Records that the dependency is needed in the phase `kind` with the
    /// given features activated: the phase's list becomes the sorted union of
    /// what it held and `features`. The other phases are left as they are.
    pub fn activate(&mut self, kind: DependencyKind, features: &Vec<String>)
        ensures
            final(self).well_formed(),
            final(self)@.dom() == old(self)@.dom().insert(kind),
            forall|k: DependencyKind| k != kind && old(self)@.contains_key(k) ==> final(self)@[k]
                == old(self)@[k],
            final(self)@[kind].to_set() == names_of(features@).to_set().union(
                if old(self)@.contains_key(kind) {
                    old(self)@[kind].to_set()
                } else {
                    Set::empty()
                },
            ),
    {
        let mut table = KindTable { normal: None, build: None, development: None };
        core::mem::swap(self, &mut table);
        proof {
            use_type_invariant(&table);
        }
        let ghost before = table@;
        let ghost held = if before.contains_key(kind) {
            before[kind]
        } else {
            Seq::empty()
        };
        let KindTable { normal, build, development } = table;
        match kind {
            DependencyKind::Normal => {
                let info = grow(normal, features);
                *self = KindTable { normal: Some(info), build, development };
            },
            DependencyKind::Build => {
                let info = grow(build, features);
                *self = KindTable { normal, build: Some(info), development };
            },
            DependencyKind::Development => {
                let info = grow(development, features);
                *self = KindTable { normal, build, development: Some(info) };
            },
        }
        let ghost merged = self@[kind];
        proof {
            assert(self@.dom() =~= before.dom().insert(kind));
            assert(merged.to_set() =~= names_of(features@).to_set().union(
                if before.contains_key(kind) {
                    before[kind].to_set()
                } else {
                    Set::empty()
                },
            )) by {
                assert forall|x: Seq<char>| merged.to_set().contains(x) <==> (names_of(
                    features@,
                ).to_set().contains(x) || held.contains(x)) by {
                    assert(merged.contains(x) <==> held.contains(x) || names_of(
                        features@,
                    ).contains(x));
                }
            }
            assert forall|k: DependencyKind| self@.contains_key(k) implies sorted_names(
                #[trigger] self@[k],
            ) by {
                if k != kind {
                    assert(self@[k] == before[k]);
                }
            }
        }
    }
}

impl Dependency {
    /// The bucket that the entry stands for.
    pub open spec fn key(&self) -> BucketKey {
        self@.key()
    }

    /// Takes one edge into the entry: in every build phase in which the edge
    /// is needed, its features are added to those already activated.
    pub fn absorb(&mut self, edge: &ResolutionEdge)
        ensures
            final(self).dependency_kinds.well_formed(),
            final(self)@.package_name == old(self)@.package_name,
            final(self)@.epoch == old(self)@.epoch,
            final(self)@.version == old(self)@.version,
            final(self)@.features == old(self)@.features,
            absorbed(old(self)@.kinds, final(self)@.kinds, edge@),
    {
        proof {
            use_type_invariant(&self.dependency_kinds);
        }
        if edge.has_kind(DependencyKind::Normal) {
            self.dependency_kinds.activate(DependencyKind::Normal, &edge.features);
        }
        if edge.has_kind(DependencyKind::Build) {
            self.dependency_kinds.activate(DependencyKind::Build, &edge.features);
        }
        if edge.has_kind(DependencyKind::Development) {
            self.dependency_kinds.activate(DependencyKind::Development, &edge.features);
        }
    }
}

} // verus!
