//! What holds of every catalog.

use vstd::prelude::*;
use crate::catalog::catalog_sorted;
use crate::catalog::entry_matches;
use crate::catalog::has_entry;
use crate::catalog::is_catalog_of;
use crate::catalog::key_lt;
use crate::catalog::kind_matches;
use crate::catalog::lemma_key_lt_irreflexive;
use crate::catalog::lemma_key_lt_transitive;
use crate::dependency::BucketKey;
use crate::dependency::DependencyKind;
use crate::dependency::DependencyModel;
use crate::document::DocumentModel;
use crate::document::PackageModel;
use crate::document::lookup;
use crate::names::lemma_sorted_names_unique;
use crate::text::sorted_names;

verus! {

/// The package that an identifier stands for is the first one in the list
/// that has the identifier; an identifier that no package has stands for none.
pub proof fn lemma_lookup_first(packages: Seq<PackageModel>, id: Seq<char>, i: int)
    requires
        0 <= i <= packages.len(),
    ensures
        match lookup(packages, id, i) {
            Some(k) => i <= k < packages.len() && packages[k].id == id && forall|j: int|
                i <= j < k ==> packages[j].id != id,
            None => forall|j: int| i <= j < packages.len() ==> packages[j].id != id,
        },
    decreases packages.len() - i,
{
    if i < packages.len() && packages[i].id != id {
        lemma_lookup_first(packages, id, i + 1);
    }
}

/// No edge is defective exactly when scanning for the first defect finds
/// none; and an error that the scan finds is the defect of an edge before
/// which no edge is defective.
pub proof fn lemma_first_defect(doc: DocumentModel, i: int)
    requires
        0 <= i <= doc.edges.len(),
    ensures
        doc.first_defect(i) is None <==> forall|j: int|
            i <= j < doc.edges.len() ==> (#[trigger] doc.defect(j)) is None,
        doc.first_defect(i) is Some ==> exists|k: int|
            i <= k < doc.edges.len() && #[trigger] doc.defect(k) == doc.first_defect(i) && forall|
                j: int,
            |
                i <= j < k ==> (#[trigger] doc.defect(j)) is None,
    decreases doc.edges.len() - i,
{
    if i < doc.edges.len() {
        lemma_first_defect(doc, i + 1);
        if doc.defect(i) is Some {
            assert(doc.defect(i) == doc.first_defect(i));
        } else if doc.first_defect(i) is Some {
            let k = choose|k: int|
                i + 1 <= k < doc.edges.len() && #[trigger] doc.defect(k) == doc.first_defect(i + 1)
                    && forall|j: int| i + 1 <= j < k ==> (#[trigger] doc.defect(j)) is None;
            assert(doc.defect(k) == doc.first_defect(i));
            assert forall|j: int| i <= j < k implies (#[trigger] doc.defect(j)) is None by {}
        }
    }
}

/// A phase is requested for a bucket exactly when one of the edges
/// contributes to it.
pub proof fn lemma_requested(doc: DocumentModel, n: int, key: BucketKey, kind: DependencyKind)
    requires
        0 <= n,
    ensures
        doc.requested(n, key, kind) <==> exists|i: int|
            0 <= i < n && #[trigger] doc.contributes(i, key, kind),
    decreases n,
{
    if n > 0 {
        lemma_requested(doc, n - 1, key, kind);
        if doc.requested(n - 1, key, kind) {
            let i = choose|i: int| 0 <= i < n - 1 && #[trigger] doc.contributes(i, key, kind);
            assert(0 <= i < n && doc.contributes(i, key, kind));
        }
        if doc.contributes(n - 1, key, kind) {
            assert(0 <= n - 1 < n && doc.contributes(n - 1, key, kind));
        }
    }
}

/// A feature is activated for a bucket and a phase exactly when one of the
/// contributing edges activates it: the activated set is the union of the
/// feature sets of the contributing edges.
pub proof fn lemma_activated(
    doc: DocumentModel,
    n: int,
    key: BucketKey,
    kind: DependencyKind,
    x: Seq<char>,
)
    requires
        0 <= n,
    ensures
        doc.activated(n, key, kind).contains(x) <==> exists|i: int|
            0 <= i < n && #[trigger] doc.contributes(i, key, kind) && doc.edges[i].features.contains(
                x,
            ),
    decreases n,
{
    if n > 0 {
        lemma_activated(doc, n - 1, key, kind, x);
        if doc.activated(n - 1, key, kind).contains(x) {
            let i = choose|i: int|
                0 <= i < n - 1 && #[trigger] doc.contributes(i, key, kind)
                    && doc.edges[i].features.contains(x);
            assert(0 <= i < n && doc.contributes(i, key, kind) && doc.edges[i].features.contains(
                x,
            ));
        }
        if doc.contributes(n - 1, key, kind) && doc.edges[n - 1].features.contains(x) {
            assert(0 <= n - 1 < n && doc.contributes(n - 1, key, kind));
        }
    }
}

/// When exactly two edges contribute to a bucket and a phase, the entry
/// lists for that phase the union of the two edges' features, in ascending
/// order and without repeats.
pub proof fn lemma_union_of_two(
    doc: DocumentModel,
    cat: Seq<DependencyModel>,
    a: int,
    kind: DependencyKind,
    i: int,
    j: int,
)
    requires
        is_catalog_of(doc, cat),
        0 <= a < cat.len(),
        0 <= i < doc.edges.len(),
        0 <= j < doc.edges.len(),
        forall|m: int|
            0 <= m < doc.edges.len() ==> (#[trigger] doc.contributes(m, cat[a].key(), kind) <==> m
                == i || m == j),
    ensures
        cat[a].kinds.contains_key(kind),
        sorted_names(cat[a].kinds[kind]),
        cat[a].kinds[kind].to_set() == doc.edges[i].features.to_set().union(
            doc.edges[j].features.to_set(),
        ),
{
    let n = doc.edges.len() as int;
    let key = cat[a].key();
    let d = cat[a];
    assert(entry_matches(doc, n, d));
    lemma_kind_of_entry(doc, n, d, kind);
    lemma_requested(doc, n, key, kind);
    assert(doc.contributes(i, key, kind));
    let both = doc.edges[i].features.to_set().union(doc.edges[j].features.to_set());
    assert forall|x: Seq<char>| doc.activated(n, key, kind).contains(x) <==> both.contains(
        x,
    ) by {
        lemma_activated(doc, n, key, kind, x);
        if both.contains(x) {
            if doc.edges[i].features.contains(x) {
                assert(doc.contributes(i, key, kind) && doc.edges[i].features.contains(x));
            } else {
                assert(doc.contributes(j, key, kind) && doc.edges[j].features.contains(x));
            }
        }
    }
    assert(doc.activated(n, key, kind) =~= both);
}

/// An entry matches in every phase.
pub proof fn lemma_kind_of_entry(
    doc: DocumentModel,
    n: int,
    d: DependencyModel,
    kind: DependencyKind,
)
    requires
        entry_matches(doc, n, d),
    ensures
        kind_matches(doc, n, d, kind),
{
    match kind {
        DependencyKind::Normal => {},
        DependencyKind::Build => {},
        DependencyKind::Development => {},
    }
}

/// An entry has no record of a phase to which no edge contributes. A package
/// that is needed only for development has nothing under the normal or the
/// build phase.
pub proof fn lemma_phase_absent(
    doc: DocumentModel,
    cat: Seq<DependencyModel>,
    a: int,
    kind: DependencyKind,
)
    requires
        is_catalog_of(doc, cat),
        0 <= a < cat.len(),
        forall|i: int|
            0 <= i < doc.edges.len() ==> !#[trigger] doc.contributes(i, cat[a].key(), kind),
    ensures
        !cat[a].kinds.contains_key(kind),
{
    let n = doc.edges.len() as int;
    assert(entry_matches(doc, n, cat[a]));
    lemma_kind_of_entry(doc, n, cat[a], kind);
    lemma_requested(doc, n, cat[a].key(), kind);
}

/// Two edges that lead to the same bucket, whoever requests them, share one
/// entry, and no other entry stands for that bucket.
pub proof fn lemma_one_entry(doc: DocumentModel, cat: Seq<DependencyModel>, i: int, j: int)
    requires
        is_catalog_of(doc, cat),
        0 <= i < doc.edges.len(),
        0 <= j < doc.edges.len(),
        doc.bucket(i) is Some,
        doc.bucket(i) == doc.bucket(j),
    ensures
        exists|a: int|
            0 <= a < cat.len() && Some((#[trigger] cat[a]).key()) == doc.bucket(i) && Some(
                cat[a].key(),
            ) == doc.bucket(j) && forall|b: int|
                0 <= b < cat.len() && (#[trigger] cat[b]).key() == cat[a].key() ==> b == a,
{
    assert(has_entry(cat, doc.bucket(i)->0));
    let a = choose|a: int| 0 <= a < cat.len() && (#[trigger] cat[a]).key() == doc.bucket(i)->0;
    lemma_keys_differ(cat, a);
}

/// In a sorted catalog no two entries stand for the same bucket.
pub proof fn lemma_keys_differ(cat: Seq<DependencyModel>, a: int)
    requires
        catalog_sorted(cat),
        0 <= a < cat.len(),
    ensures
        forall|b: int| 0 <= b < cat.len() && (#[trigger] cat[b]).key() == cat[a].key() ==> b == a,
{
    assert forall|b: int| 0 <= b < cat.len() && (#[trigger] cat[b]).key() == cat[a].key() implies b
        == a by {
        lemma_key_lt_irreflexive(cat[a].key());
        if b < a {
            assert(key_lt(cat[b].key(), cat[a].key()));
        }
        if a < b {
            assert(key_lt(cat[a].key(), cat[b].key()));
        }
    }
}

/// Two sorted catalogs with entries for the same buckets have the same
/// length and the same bucket at every place.
pub proof fn lemma_same_buckets(c1: Seq<DependencyModel>, c2: Seq<DependencyModel>)
    requires
        catalog_sorted(c1),
        catalog_sorted(c2),
        forall|key: BucketKey| has_entry(c1, key) <==> has_entry(c2, key),
    ensures
        c1.len() == c2.len(),
        forall|a: int| 0 <= a < c1.len() ==> (#[trigger] c1[a]).key() == c2[a].key(),
    decreases c1.len(),
{
    if c1.len() == 0 {
        if c2.len() > 0 {
            assert(has_entry(c2, c2[0].key()));
            assert(has_entry(c1, c2[0].key()));
        }
    } else {
        let k1 = c1[0].key();
        assert(has_entry(c1, k1));
        assert(has_entry(c2, k1));
        let j = choose|j: int| 0 <= j < c2.len() && (#[trigger] c2[j]).key() == k1;
        let k2 = c2[0].key();
        assert(has_entry(c2, k2));
        assert(has_entry(c1, k2));
        let i = choose|i: int| 0 <= i < c1.len() && (#[trigger] c1[i]).key() == k2;
        if j > 0 {
            assert(key_lt(c2[0].key(), c2[j].key()));
            if i > 0 {
                assert(key_lt(c1[0].key(), c1[i].key()));
                lemma_key_lt_transitive(k2, k1, k2);
            }
            lemma_key_lt_irreflexive(k2);
        }
        assert(k1 == k2);
        let t1 = c1.drop_first();
        let t2 = c2.drop_first();
        assert forall|key: BucketKey| has_entry(t1, key) <==> has_entry(t2, key) by {
            lemma_key_lt_irreflexive(key);
            if has_entry(t1, key) {
                let a = choose|a: int| 0 <= a < t1.len() && (#[trigger] t1[a]).key() == key;
                assert(c1[a + 1].key() == key);
                assert(key_lt(c1[0].key(), c1[a + 1].key()));
                assert(has_entry(c1, key));
                let b = choose|b: int| 0 <= b < c2.len() && (#[trigger] c2[b]).key() == key;
                assert(t2[b - 1].key() == key);
            }
            if has_entry(t2, key) {
                let a = choose|a: int| 0 <= a < t2.len() && (#[trigger] t2[a]).key() == key;
                assert(c2[a + 1].key() == key);
                assert(key_lt(c2[0].key(), c2[a + 1].key()));
                assert(has_entry(c2, key));
                let b = choose|b: int| 0 <= b < c1.len() && (#[trigger] c1[b]).key() == key;
                assert(t1[b - 1].key() == key);
            }
        }
        assert forall|a: int, b: int| 0 <= a < b < t1.len() implies key_lt(
            (#[trigger] t1[a]).key(),
            (#[trigger] t1[b]).key(),
        ) by {
            assert(key_lt(c1[a + 1].key(), c1[b + 1].key()));
        }
        assert forall|a: int, b: int| 0 <= a < b < t2.len() implies key_lt(
            (#[trigger] t2[a]).key(),
            (#[trigger] t2[b]).key(),
        ) by {
            assert(key_lt(c2[a + 1].key(), c2[b + 1].key()));
        }
        lemma_same_buckets(t1, t2);
        assert forall|a: int| 0 <= a < c1.len() implies (#[trigger] c1[a]).key() == c2[a].key() by {
            if a > 0 {
                assert(t1[a - 1].key() == t2[a - 1].key());
            }
        }
    }
}

/// Two entries that are right for the same bucket are the same entry.
pub proof fn lemma_entry_unique(
    doc: DocumentModel,
    n: int,
    d1: DependencyModel,
    d2: DependencyModel,
)
    requires
        entry_matches(doc, n, d1),
        entry_matches(doc, n, d2),
        d1.key() == d2.key(),
    ensures
        d1 == d2,
{
    assert forall|k: DependencyKind| d1.kinds.contains_key(k) == d2.kinds.contains_key(k) && (
    d1.kinds.contains_key(k) ==> d1.kinds[k] == d2.kinds[k]) by {
        lemma_kind_of_entry(doc, n, d1, k);
        lemma_kind_of_entry(doc, n, d2, k);
        if d1.kinds.contains_key(k) {
            let s1 = d1.kinds[k];
            let s2 = d2.kinds[k];
            assert forall|x: Seq<char>| s1.contains(x) <==> s2.contains(x) by {
                assert(s1.to_set().contains(x) == s2.to_set().contains(x));
            }
            lemma_sorted_names_unique(s1, s2);
        }
    }
    assert(d1.kinds =~= d2.kinds);
    assert forall|x: Seq<char>| d1.features.contains(x) <==> d2.features.contains(x) by {
        assert(d1.features.to_set().contains(x) == d2.features.to_set().contains(x));
    }
    lemma_sorted_names_unique(d1.features, d2.features);
}

/// A document has one catalog. Collecting twice from the same document
/// gives the same entries in the same order, each with the same feature
/// lists.
pub proof fn lemma_catalog_unique(
    doc: DocumentModel,
    c1: Seq<DependencyModel>,
    c2: Seq<DependencyModel>,
)
    requires
        is_catalog_of(doc, c1),
        is_catalog_of(doc, c2),
    ensures
        c1 == c2,
{
    let n = doc.edges.len() as int;
    assert forall|key: BucketKey| has_entry(c1, key) <==> has_entry(c2, key) by {
        if has_entry(c1, key) {
            let a = choose|a: int| 0 <= a < c1.len() && (#[trigger] c1[a]).key() == key;
            assert(entry_matches(doc, n, c1[a]));
            let o = doc.first_edge(key, 0);
            assert(doc.bucket(o) is Some);
        }
        if has_entry(c2, key) {
            let a = choose|a: int| 0 <= a < c2.len() && (#[trigger] c2[a]).key() == key;
            assert(entry_matches(doc, n, c2[a]));
            let o = doc.first_edge(key, 0);
            assert(doc.bucket(o) is Some);
        }
    }
    lemma_same_buckets(c1, c2);
    assert forall|a: int| 0 <= a < c1.len() implies c1[a] == c2[a] by {
        assert(entry_matches(doc, n, c1[a]));
        assert(entry_matches(doc, n, c2[a]));
        lemma_entry_unique(doc, n, c1[a], c2[a]);
    }
    assert(c1 =~= c2);
}

} // verus!
