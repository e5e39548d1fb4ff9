//! What the catalog of a document is.
//!
//! Every edge of the resolved graph requires a package, and the package's
//! name and epoch name a bucket. The catalog has one entry per bucket, in
//! ascending order of name and epoch. For each build phase in which some edge
//! into the bucket is needed, the entry lists the union of the features that
//! those edges activate.

use vstd::prelude::*;
use crate::dependency::BucketKey;
use crate::dependency::Dependency;
use crate::dependency::DependencyKind;
use crate::dependency::DependencyModel;
use crate::document::DocumentModel;
use crate::document::EdgeModel;
use crate::document::PackageModel;
use crate::epoch::epoch_lt;
use crate::epoch::epoch_of;
use crate::epoch::lemma_epoch_lt_irreflexive;
use crate::epoch::lemma_epoch_lt_total;
use crate::epoch::lemma_epoch_lt_transitive;
use crate::error::ErrorModel;
use crate::text::lemma_name_lt_irreflexive;
use crate::text::lemma_name_lt_total;
use crate::text::lemma_name_lt_transitive;
use crate::text::name_lt;
use crate::text::sorted_names;

verus! {

/// The strict order on buckets: by package name, then by epoch.
pub open spec fn key_lt(a: BucketKey, b: BucketKey) -> bool {
    name_lt(a.name, b.name) || (a.name == b.name && epoch_lt(a.epoch, b.epoch))
}

/// No bucket is below itself.
pub proof fn lemma_key_lt_irreflexive(a: BucketKey)
    ensures
        !key_lt(a, a),
{
    lemma_name_lt_irreflexive(a.name);
    lemma_epoch_lt_irreflexive(a.epoch);
}

/// The order on buckets is transitive.
pub proof fn lemma_key_lt_transitive(a: BucketKey, b: BucketKey, c: BucketKey)
    requires
        key_lt(a, b),
        key_lt(b, c),
    ensures
        key_lt(a, c),
{
    if name_lt(a.name, b.name) && name_lt(b.name, c.name) {
        lemma_name_lt_transitive(a.name, b.name, c.name);
    }
    if a.name == b.name && b.name == c.name {
        lemma_epoch_lt_transitive(a.epoch, b.epoch, c.epoch);
    }
}

/// Two buckets are equal or one is below the other.
pub proof fn lemma_key_lt_total(a: BucketKey, b: BucketKey)
    ensures
        a == b || key_lt(a, b) || key_lt(b, a),
{
    lemma_name_lt_total(a.name, b.name);
    lemma_epoch_lt_total(a.epoch, b.epoch);
}

impl DocumentModel {
    /// The package that edge `i` requires, if the package list has it.
    pub open spec fn target(self, i: int) -> Option<PackageModel> {
        self.package(self.edges[i].target)
    }

    /// The bucket that edge `i` leads to, if its target is known and has a
    /// well-formed version.
    pub open spec fn bucket(self, i: int) -> Option<BucketKey> {
        match self.target(i) {
            Some(p) => match epoch_of(p.version) {
                Some(e) => Some(BucketKey { name: p.name, epoch: e }),
                None => None,
            },
            None => None,
        }
    }

    /// The first edge at or after `i` that leads to the bucket `key`, or the
    /// number of edges when there is none.
    pub open spec fn first_edge(self, key: BucketKey, i: int) -> int
        decreases self.edges.len() - i,
    {
        if 0 <= i < self.edges.len() && self.bucket(i) != Some(key) {
            self.first_edge(key, i + 1)
        } else {
            i
        }
    }

    /// What is wrong with edge `i`, if anything: its target is unknown, or
    /// the target's version is malformed, or the version differs from that of
    /// the first edge into the same bucket.
    pub open spec fn defect(self, i: int) -> Option<ErrorModel> {
        match self.target(i) {
            None => Some(ErrorModel::UnknownPackage { package_id: self.edges[i].target }),
            Some(p) => match self.bucket(i) {
                None => Some(ErrorModel::MalformedVersion { package_id: self.edges[i].target }),
                Some(key) => {
                    let first = self.target(self.first_edge(key, 0))->0.version;
                    if first != p.version {
                        Some(
                            ErrorModel::ConflictingVersions {
                                package_name: p.name,
                                first: first,
                                second: p.version,
                            },
                        )
                    } else {
                        None
                    }
                },
            },
        }
    }

    /// The defect of the first defective edge at or after `i`.
    pub open spec fn first_defect(self, i: int) -> Option<ErrorModel>
        decreases self.edges.len() - i,
    {
        if 0 <= i < self.edges.len() {
            match self.defect(i) {
                Some(e) => Some(e),
                None => self.first_defect(i + 1),
            }
        } else {
            None
        }
    }

    /// Edge `i` leads to the bucket `key` and is needed in the phase `kind`.
    pub open spec fn contributes(self, i: int, key: BucketKey, kind: DependencyKind) -> bool {
        self.bucket(i) == Some(key) && self.edges[i].kinds.contains(kind)
    }

    /// Some edge among the first `n` contributes to `key` and `kind`.
    pub open spec fn requested(self, n: int, key: BucketKey, kind: DependencyKind) -> bool
        decreases n,
    {
        n > 0 && (self.requested(n - 1, key, kind) || self.contributes(n - 1, key, kind))
    }

    /// The features activated for `key` and `kind` by the first `n` edges:
    /// starting from the empty set, each contributing edge adds its own.
    pub open spec fn activated(self, n: int, key: BucketKey, kind: DependencyKind) -> Set<
        Seq<char>,
    >
        decreases n,
    {
        if n <= 0 {
            Set::empty()
        } else if self.contributes(n - 1, key, kind) {
            self.activated(n - 1, key, kind).union(self.edges[n - 1].features.to_set())
        } else {
            self.activated(n - 1, key, kind)
        }
    }
}

/// The models of a vector of entries.
pub open spec fn catalog_model(v: Seq<Dependency>) -> Seq<DependencyModel> {
    Seq::new(v.len(), |a: int| v[a]@)
}

/// The entries are in strictly ascending order of bucket.
pub open spec fn catalog_sorted(cat: Seq<DependencyModel>) -> bool {
    forall|a: int, b: int|
        0 <= a < b < cat.len() ==> key_lt((#[trigger] cat[a]).key(), (#[trigger] cat[b]).key())
}

/// The catalog has an entry for the bucket `key`.
pub open spec fn has_entry(cat: Seq<DependencyModel>, key: BucketKey) -> bool {
    exists|a: int| 0 <= a < cat.len() && (#[trigger] cat[a]).key() == key
}

/// The entry `d` says of the phase `kind` what the first `n` edges ask for:
/// the phase is present exactly when some edge contributes to it, and then
/// lists the activated features in ascending order.
pub open spec fn kind_matches(
    doc: DocumentModel,
    n: int,
    d: DependencyModel,
    kind: DependencyKind,
) -> bool {
    &&& d.kinds.contains_key(kind) <==> doc.requested(n, d.key(), kind)
    &&& d.kinds.contains_key(kind) ==> sorted_names(d.kinds[kind]) && d.kinds[kind].to_set()
        == doc.activated(n, d.key(), kind)
}

/// The entry `d` is the entry of its bucket for the first `n` edges: the
/// bucket is reached by one of them, the version is that of the package
/// that the first such edge requires, the declared features are that
/// package's in ascending order and without repeats, and each phase matches.
pub open spec fn entry_matches(doc: DocumentModel, n: int, d: DependencyModel) -> bool {
    let origin = doc.first_edge(d.key(), 0);
    &&& 0 <= origin < n
    &&& doc.bucket(origin) == Some(d.key())
    &&& d.version == doc.target(origin)->0.version
    &&& sorted_names(d.features)
    &&& d.features.to_set() == doc.target(origin)->0.features.to_set()
    &&& kind_matches(doc, n, d, DependencyKind::Normal)
    &&& kind_matches(doc, n, d, DependencyKind::Build)
    &&& kind_matches(doc, n, d, DependencyKind::Development)
}

/// `cat` is the catalog of the first `n` edges of `doc`: sorted, with an
/// entry for every bucket that one of these edges leads to, and no other.
pub open spec fn catalog_matches(doc: DocumentModel, n: int, cat: Seq<DependencyModel>) -> bool {
    &&& catalog_sorted(cat)
    &&& forall|i: int|
        0 <= i < n && (#[trigger] doc.bucket(i)) is Some ==> has_entry(cat, doc.bucket(i)->0)
    &&& forall|a: int| 0 <= a < cat.len() ==> entry_matches(doc, n, #[trigger] cat[a])
}

/// `cat` is the catalog of `doc`.
pub open spec fn is_catalog_of(doc: DocumentModel, cat: Seq<DependencyModel>) -> bool {
    catalog_matches(doc, doc.edges.len() as int, cat)
}

/// What `first_edge` returns, stated without recursion.
pub proof fn lemma_first_edge(doc: DocumentModel, key: BucketKey, i: int)
    requires
        0 <= i <= doc.edges.len(),
    ensures
        i <= doc.first_edge(key, i) <= doc.edges.len(),
        forall|j: int| i <= j < doc.first_edge(key, i) ==> doc.bucket(j) != Some(key),
        doc.first_edge(key, i) < doc.edges.len() ==> doc.bucket(doc.first_edge(key, i)) == Some(
            key,
        ),
    decreases doc.edges.len() - i,
{
    if i < doc.edges.len() && doc.bucket(i) != Some(key) {
        lemma_first_edge(doc, key, i + 1);
    }
}

/// The first edge into a bucket is the one before which no edge leads there.
pub proof fn lemma_first_edge_is(doc: DocumentModel, key: BucketKey, n: int)
    requires
        0 <= n < doc.edges.len(),
        doc.bucket(n) == Some(key),
        forall|j: int| 0 <= j < n ==> doc.bucket(j) != Some(key),
    ensures
        doc.first_edge(key, 0) == n,
{
    lemma_first_edge(doc, key, 0);
}

/// As long as no edge leads to a bucket, nothing is requested or activated
/// for it.
pub proof fn lemma_unreached(doc: DocumentModel, n: int, key: BucketKey, kind: DependencyKind)
    requires
        forall|j: int| 0 <= j < n ==> doc.bucket(j) != Some(key),
    ensures
        !doc.requested(n, key, kind),
        doc.activated(n, key, kind) == Set::<Seq<char>>::empty(),
    decreases n,
{
    if n > 0 {
        lemma_unreached(doc, n - 1, key, kind);
    }
}

/// A phase that no edge has asked for has no activated features.
pub proof fn lemma_unrequested(doc: DocumentModel, n: int, key: BucketKey, kind: DependencyKind)
    requires
        !doc.requested(n, key, kind),
    ensures
        doc.activated(n, key, kind) == Set::<Seq<char>>::empty(),
    decreases n,
{
    if n > 0 {
        lemma_unrequested(doc, n - 1, key, kind);
    }
}

/// How an entry's phases change when it takes in one edge: a phase that the
/// edge is needed in holds the union of what it held and the edge's
/// features, in ascending order; any other phase stays as it was.
pub open spec fn absorbed_kind(
    before: Map<DependencyKind, Seq<Seq<char>>>,
    after: Map<DependencyKind, Seq<Seq<char>>>,
    edge: EdgeModel,
    kind: DependencyKind,
) -> bool {
    if edge.kinds.contains(kind) {
        &&& after.contains_key(kind)
        &&& sorted_names(after[kind])
        &&& after[kind].to_set() == edge.features.to_set().union(
            if before.contains_key(kind) {
                before[kind].to_set()
            } else {
                Set::empty()
            },
        )
    } else {
        &&& after.contains_key(kind) == before.contains_key(kind)
        &&& before.contains_key(kind) ==> after[kind] == before[kind]
    }
}

/// `absorbed_kind` for each of the three phases.
pub open spec fn absorbed(
    before: Map<DependencyKind, Seq<Seq<char>>>,
    after: Map<DependencyKind, Seq<Seq<char>>>,
    edge: EdgeModel,
) -> bool {
    &&& absorbed_kind(before, after, edge, DependencyKind::Normal)
    &&& absorbed_kind(before, after, edge, DependencyKind::Build)
    &&& absorbed_kind(before, after, edge, DependencyKind::Development)
}

/// An entry stays right when the next edge leads to another bucket.
pub proof fn lemma_entry_kept(doc: DocumentModel, n: int, d: DependencyModel)
    requires
        0 <= n < doc.edges.len(),
        entry_matches(doc, n, d),
        doc.bucket(n) != Some(d.key()),
    ensures
        entry_matches(doc, n + 1, d),
{
}

/// An entry that has taken in edge `n`, which leads to its bucket, is right
/// for one edge more.
pub proof fn lemma_entry_grown(
    doc: DocumentModel,
    n: int,
    before: DependencyModel,
    after: DependencyModel,
)
    requires
        0 <= n < doc.edges.len(),
        entry_matches(doc, n, before),
        doc.bucket(n) == Some(before.key()),
        after.key() == before.key(),
        after.version == before.version,
        after.features == before.features,
        absorbed(before.kinds, after.kinds, doc.edges[n]),
    ensures
        entry_matches(doc, n + 1, after),
{
    lemma_kind_grown(doc, n, before, after, DependencyKind::Normal);
    lemma_kind_grown(doc, n, before, after, DependencyKind::Build);
    lemma_kind_grown(doc, n, before, after, DependencyKind::Development);
}

proof fn lemma_kind_grown(
    doc: DocumentModel,
    n: int,
    before: DependencyModel,
    after: DependencyModel,
    kind: DependencyKind,
)
    requires
        0 <= n < doc.edges.len(),
        kind_matches(doc, n, before, kind),
        doc.bucket(n) == Some(before.key()),
        after.key() == before.key(),
        absorbed_kind(before.kinds, after.kinds, doc.edges[n], kind),
    ensures
        kind_matches(doc, n + 1, after, kind),
{
    let key = before.key();
    if !before.kinds.contains_key(kind) {
        lemma_unrequested(doc, n, key, kind);
    }
    if doc.edges[n].kinds.contains(kind) {
        assert(doc.contributes(n, key, kind));
        assert(after.kinds[kind].to_set() =~= doc.activated(n + 1, key, kind));
    }
}

/// A new entry made from edge `n`, the first edge into its bucket, is right
/// for the first `n + 1` edges.
pub proof fn lemma_entry_fresh(doc: DocumentModel, n: int, d: DependencyModel)
    requires
        0 <= n < doc.edges.len(),
        doc.bucket(n) == Some(d.key()),
        forall|j: int| 0 <= j < n ==> doc.bucket(j) != Some(d.key()),
        d.version == doc.target(n)->0.version,
        sorted_names(d.features),
        d.features.to_set() == doc.target(n)->0.features.to_set(),
        absorbed(Map::empty(), d.kinds, doc.edges[n]),
    ensures
        entry_matches(doc, n + 1, d),
{
    let key = d.key();
    lemma_first_edge_is(doc, key, n);
    lemma_kind_fresh(doc, n, d, DependencyKind::Normal);
    lemma_kind_fresh(doc, n, d, DependencyKind::Build);
    lemma_kind_fresh(doc, n, d, DependencyKind::Development);
}

proof fn lemma_kind_fresh(doc: DocumentModel, n: int, d: DependencyModel, kind: DependencyKind)
    requires
        0 <= n < doc.edges.len(),
        doc.bucket(n) == Some(d.key()),
        forall|j: int| 0 <= j < n ==> doc.bucket(j) != Some(d.key()),
        absorbed_kind(Map::empty(), d.kinds, doc.edges[n], kind),
    ensures
        kind_matches(doc, n + 1, d, kind),
{
    let key = d.key();
    lemma_unreached(doc, n, key, kind);
    if doc.edges[n].kinds.contains(kind) {
        assert(doc.contributes(n, key, kind));
        assert(d.kinds[kind].to_set() =~= doc.activated(n + 1, key, kind));
    }
}

/// In a sorted catalog, a bucket that lies strictly between the entries
/// before `pos` and those from `pos` on has no entry.
pub proof fn lemma_no_entry(cat: Seq<DependencyModel>, key: BucketKey, pos: int)
    requires
        catalog_sorted(cat),
        0 <= pos <= cat.len(),
        forall|a: int| 0 <= a < pos ==> key_lt((#[trigger] cat[a]).key(), key),
        pos < cat.len() ==> key_lt(key, cat[pos].key()),
    ensures
        !has_entry(cat, key),
        forall|a: int| pos <= a < cat.len() ==> key_lt(key, (#[trigger] cat[a]).key()),
{
    assert forall|a: int| pos <= a < cat.len() implies key_lt(key, (#[trigger] cat[a]).key()) by {
        if a > pos {
            lemma_key_lt_transitive(key, cat[pos].key(), cat[a].key());
        }
    }
    lemma_key_lt_irreflexive(key);
}

/// The catalog of the first `n` edges, with a new entry for edge `n` put in
/// its place, is the catalog of the first `n + 1` edges.
pub proof fn lemma_catalog_insert(
    doc: DocumentModel,
    n: int,
    cat: Seq<DependencyModel>,
    pos: int,
    d: DependencyModel,
)
    requires
        0 <= n < doc.edges.len(),
        catalog_matches(doc, n, cat),
        doc.bucket(n) == Some(d.key()),
        0 <= pos <= cat.len(),
        forall|a: int| 0 <= a < pos ==> key_lt((#[trigger] cat[a]).key(), d.key()),
        pos < cat.len() ==> key_lt(d.key(), cat[pos].key()),
        d.version == doc.target(n)->0.version,
        sorted_names(d.features),
        d.features.to_set() == doc.target(n)->0.features.to_set(),
        absorbed(Map::empty(), d.kinds, doc.edges[n]),
    ensures
        catalog_matches(doc, n + 1, cat.insert(pos, d)),
        doc.first_edge(d.key(), 0) == n,
{
    let key = d.key();
    let next = cat.insert(pos, d);
    lemma_no_entry(cat, key, pos);
    assert forall|j: int| 0 <= j < n implies doc.bucket(j) != Some(key) by {
        if doc.bucket(j) == Some(key) {
            assert(has_entry(cat, doc.bucket(j)->0));
        }
    }
    lemma_entry_fresh(doc, n, d);
    lemma_first_edge_is(doc, key, n);
    assert forall|a: int| 0 <= a < next.len() implies entry_matches(
        doc,
        n + 1,
        #[trigger] next[a],
    ) by {
        if a < pos {
            assert(next[a] == cat[a]);
            lemma_key_lt_irreflexive(key);
            lemma_entry_kept(doc, n, cat[a]);
        } else if a > pos {
            assert(next[a] == cat[a - 1]);
            lemma_key_lt_irreflexive(key);
            lemma_entry_kept(doc, n, cat[a - 1]);
        }
    }
    assert forall|i: int| 0 <= i < n + 1 && (#[trigger] doc.bucket(i)) is Some implies has_entry(
        next,
        doc.bucket(i)->0,
    ) by {
        if i == n {
            assert(next[pos].key() == key);
        } else {
            let a = choose|a: int| 0 <= a < cat.len() && (#[trigger] cat[a]).key() == doc.bucket(
                i,
            )->0;
            if a < pos {
                assert(next[a] == cat[a]);
            } else {
                assert(next[a + 1] == cat[a]);
            }
        }
    }
    assert forall|a: int, b: int| 0 <= a < b < next.len() implies key_lt(
        (#[trigger] next[a]).key(),
        (#[trigger] next[b]).key(),
    ) by {
        if b < pos {
            assert(key_lt(cat[a].key(), cat[b].key()));
        } else if b == pos {
            assert(next[a] == cat[a]);
        } else if a == pos {
            assert(next[b] == cat[b - 1]);
        } else if a < pos {
            assert(next[b] == cat[b - 1]);
            lemma_key_lt_transitive(cat[a].key(), key, cat[b - 1].key());
        } else {
            assert(key_lt(cat[a - 1].key(), cat[b - 1].key()));
        }
    }
}

/// The catalog of the first `n` edges, with the entry of edge `n`'s bucket
/// replaced by one that has taken the edge in, is the catalog of the first
/// `n + 1` edges.
pub proof fn lemma_catalog_update(
    doc: DocumentModel,
    n: int,
    cat: Seq<DependencyModel>,
    pos: int,
    d: DependencyModel,
)
    requires
        0 <= n < doc.edges.len(),
        catalog_matches(doc, n, cat),
        0 <= pos < cat.len(),
        doc.bucket(n) == Some(cat[pos].key()),
        d.key() == cat[pos].key(),
        d.version == cat[pos].version,
        d.features == cat[pos].features,
        absorbed(cat[pos].kinds, d.kinds, doc.edges[n]),
    ensures
        catalog_matches(doc, n + 1, cat.update(pos, d)),
{
    let key = d.key();
    let next = cat.update(pos, d);
    lemma_entry_grown(doc, n, cat[pos], d);
    assert forall|a: int| 0 <= a < next.len() implies entry_matches(
        doc,
        n + 1,
        #[trigger] next[a],
    ) by {
        if a != pos {
            assert(next[a] == cat[a]);
            if a < pos {
                assert(key_lt(cat[a].key(), cat[pos].key()));
            } else {
                assert(key_lt(cat[pos].key(), cat[a].key()));
            }
            lemma_key_lt_irreflexive(key);
            lemma_entry_kept(doc, n, cat[a]);
        }
    }
    assert forall|i: int| 0 <= i < n + 1 && (#[trigger] doc.bucket(i)) is Some implies has_entry(
        next,
        doc.bucket(i)->0,
    ) by {
        if i == n {
            assert(next[pos].key() == key);
        } else {
            let a = choose|a: int| 0 <= a < cat.len() && (#[trigger] cat[a]).key() == doc.bucket(
                i,
            )->0;
            assert(next[a].key() == cat[a].key());
        }
    }
    assert forall|a: int, b: int| 0 <= a < b < next.len() implies key_lt(
        (#[trigger] next[a]).key(),
        (#[trigger] next[b]).key(),
    ) by {
        assert(key_lt(cat[a].key(), cat[b].key()));
    }
}

} // verus!
